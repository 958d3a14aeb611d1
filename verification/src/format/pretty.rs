use vstd::prelude::*;
use vstd::std_specs::convert::FromSpecImpl;
use vstd::std_specs::ops::{AddSpecImpl, BitOrSpecImpl};

verus! {

/// A document in Wadler's "prettier printer" algebra.
#[derive(Debug)]
pub enum Doc {
    Nil,
    Concat(Box<Doc>, Box<Doc>),
    Nest { indent: usize, content: Box<Doc> },
    Text(String),
    Line,
    Or(Box<Doc>, Box<Doc>),
}

/// The mathematical value of a [`Doc`]: the same tree with texts as
/// character sequences and indents as natural numbers.
pub enum DocV {
    Nil,
    Concat(Box<DocV>, Box<DocV>),
    Nest(nat, Box<DocV>),
    Text(Seq<char>),
    Line,
    Or(Box<DocV>, Box<DocV>),
}

impl Doc {
    pub open spec fn model(&self) -> DocV
        decreases self,
    {
        match self {
            Doc::Nil => DocV::Nil,
            Doc::Concat(a, b) => DocV::Concat(Box::new(a.model()), Box::new(b.model())),
            Doc::Nest { indent, content } => DocV::Nest(*indent as nat, Box::new(content.model())),
            Doc::Text(s) => DocV::Text(s@),
            Doc::Line => DocV::Line,
            Doc::Or(a, b) => DocV::Or(Box::new(a.model()), Box::new(b.model())),
        }
    }
}

impl View for Doc {
    type V = DocV;

    open spec fn view(&self) -> DocV {
        self.model()
    }
}

/// The flattened form of a document: every line break becomes a single
/// space, nesting disappears and every choice takes its first alternative.
pub open spec fn flat(d: DocV) -> DocV
    decreases d,
{
    match d {
        DocV::Nil => DocV::Nil,
        DocV::Concat(a, b) => DocV::Concat(Box::new(flat(*a)), Box::new(flat(*b))),
        DocV::Nest(_, c) => flat(*c),
        DocV::Text(s) => DocV::Text(s),
        DocV::Line => DocV::Text(seq![' ']),
        DocV::Or(a, _) => flat(*a),
    }
}

/// A document made only of texts and concatenations.
pub open spec fn is_flat(d: DocV) -> bool
    decreases d,
{
    match d {
        DocV::Nil => true,
        DocV::Concat(a, b) => is_flat(*a) && is_flat(*b),
        DocV::Text(_) => true,
        _ => false,
    }
}

pub open spec fn concat(a: DocV, b: DocV) -> DocV {
    DocV::Concat(Box::new(a), Box::new(b))
}

pub open spec fn choice(a: DocV, b: DocV) -> DocV {
    DocV::Or(Box::new(a), Box::new(b))
}

/// `group(d)`: the flat layout of `d` as first choice, `d` itself otherwise.
pub open spec fn group_spec(d: DocV) -> DocV {
    choice(flat(d), d)
}

/// A text or a line break: a space when the line fits, a newline otherwise.
pub open spec fn break_space_spec() -> DocV {
    choice(DocV::Text(seq![' ']), DocV::Line)
}

pub open spec fn bracket_spec(d: DocV, l: Seq<char>, r: Seq<char>) -> DocV {
    group_spec(
        concat(
            concat(concat(DocV::Text(l), DocV::Nest(2, Box::new(concat(DocV::Line, d)))), DocV::Line),
            DocV::Text(r),
        ),
    )
}

fn space() -> (d: Doc)
    ensures
        d@ == DocV::Text(seq![' ']),
{
    let s = " ";
    proof {
        reveal_strlit(" ");
        assert(s@ =~= seq![' ']);
    }
    Doc::text(s)
}

impl Clone for Doc {
    fn clone(&self) -> (d: Doc)
        ensures
            d@ == self@,
    {
        self.copy()
    }
}

// Smart constructors
impl Doc {
    /// A document holding the given text.
    pub fn text(s: &str) -> (d: Doc)
        ensures
            d@ == DocV::Text(s@),
    {
        Doc::Text(s.to_owned())
    }

    /// A deep copy of the document.
    pub fn copy(&self) -> (d: Doc)
        ensures
            d@ == self@,
        decreases self,
    {
        match self {
            Doc::Nil => Doc::Nil,
            Doc::Concat(a, b) => Doc::Concat(Box::new(a.copy()), Box::new(b.copy())),
            Doc::Nest { indent, content } => Doc::Nest { indent: *indent, content: Box::new(content.copy()) },
            Doc::Text(s) => Doc::Text(s.clone()),
            Doc::Line => Doc::Line,
            Doc::Or(a, b) => Doc::Or(Box::new(a.copy()), Box::new(b.copy())),
        }
    }

    fn seq(lhs: &Doc, rhs: &Doc) -> (d: Doc)
        ensures
            d@ == concat(lhs@, rhs@),
    {
        Doc::Concat(Box::new(lhs.copy()), Box::new(rhs.copy()))
    }

    /// The document `self`, whose line breaks are indented `indent` more.
    pub fn nest(&self, indent: usize) -> (d: Doc)
        ensures
            d@ == DocV::Nest(indent as nat, Box::new(self@)),
    {
        Doc::Nest { indent, content: Box::new(self.copy()) }
    }

    /// The choice between two layouts.
    pub fn or(lhs: &Doc, rhs: &Doc) -> (d: Doc)
        ensures
            d@ == choice(lhs@, rhs@),
    {
        Doc::Or(Box::new(lhs.copy()), Box::new(rhs.copy()))
    }

    /// A space, or a line break where the space does not fit.
    pub fn break_space() -> (d: Doc)
        ensures
            d@ == break_space_spec(),
    {
        proof {
            reveal_with_fuel(Doc::model, 2);
        }
        Doc::Or(Box::new(space()), Box::new(Doc::Line))
    }

    /// The flat layout of the document.
    pub fn flatten(&self) -> (d: Doc)
        ensures
            d@ == flat(self@),
        decreases self,
    {
        match self {
            Doc::Nil => Doc::Nil,
            Doc::Concat(a, b) => Doc::Concat(Box::new(a.flatten()), Box::new(b.flatten())),
            Doc::Nest { indent: _, content } => content.flatten(),
            Doc::Text(s) => Doc::text(s.as_str()),
            Doc::Line => space(),
            Doc::Or(doc, _) => doc.flatten(),
        }
    }

    /// The document with its flat layout as preferred alternative.
    pub fn group(&self) -> (d: Doc)
        ensures
            d@ == group_spec(self@),
    {
        Doc::Or(Box::new(self.flatten()), Box::new(self.copy()))
    }

    /// `l`, then `self` on its own indented lines, then `r`, all on one line
    /// where that fits.
    pub fn bracket(self, l: &str, r: &str) -> (d: Doc)
        ensures
            d@ == bracket_spec(self@, l@, r@),
    {
        proof {
            reveal_with_fuel(Doc::model, 2);
        }
        let line_then = Doc::Concat(Box::new(Doc::Line), Box::new(self));
        assert(line_then@ == concat(DocV::Line, self@));
        let inner = line_then.nest(2);
        let open = Doc::Concat(Box::new(Doc::text(l)), Box::new(inner));
        assert(open@ == concat(DocV::Text(l@), inner@));
        let body = Doc::Concat(Box::new(open), Box::new(Doc::Line));
        assert(body@ == concat(open@, DocV::Line));
        let d = Doc::Concat(Box::new(body), Box::new(Doc::text(r)));
        assert(d@ == concat(body@, DocV::Text(r@)));
        d.group()
    }
}


/// A document laid out: texts and line breaks with their indentation.
pub enum NormDoc {
    Nil,
    Text { content: String, rest: Box<NormDoc> },
    Line { indent: usize, rest: Box<NormDoc> },
}

/// The mathematical value of a [`NormDoc`].
pub enum NormV {
    Nil,
    Text(Seq<char>, Box<NormV>),
    Line(nat, Box<NormV>),
}

impl NormDoc {
    pub open spec fn model(&self) -> NormV
        decreases self,
    {
        match self {
            NormDoc::Nil => NormV::Nil,
            NormDoc::Text { content, rest } => NormV::Text(content@, Box::new(rest.model())),
            NormDoc::Line { indent, rest } => NormV::Line(*indent as nat, Box::new(rest.model())),
        }
    }
}

impl View for NormDoc {
    type V = NormV;

    open spec fn view(&self) -> NormV {
        self.model()
    }
}

/// The number of bytes that `str::len` reports for a text.
pub open spec fn byte_len(s: Seq<char>) -> int {
    vstd::utf8::encode_utf8(s).len() as usize as int
}

/// Whether the first line of a layout takes at most `width` bytes.
pub open spec fn fits_spec(n: NormV, width: int) -> bool
    decreases n,
{
    match n {
        NormV::Nil => true,
        NormV::Line(_, _) => true,
        NormV::Text(s, rest) => width >= byte_len(s) && fits_spec(*rest, width - byte_len(s)),
    }
}

/// `n` spaces.
pub open spec fn padding(n: nat) -> Seq<char> {
    Seq::new(n, |i: int| ' ')
}

/// The characters that a layout stands for.
pub open spec fn render(n: NormV) -> Seq<char>
    decreases n,
{
    match n {
        NormV::Nil => Seq::empty(),
        NormV::Text(s, rest) => s + render(*rest),
        NormV::Line(i, rest) => seq!['\n'] + padding(i) + render(*rest),
    }
}

pub open spec fn doc_size(d: DocV) -> nat
    decreases d,
{
    match d {
        DocV::Nil => 1,
        DocV::Concat(a, b) => 1 + doc_size(*a) + doc_size(*b),
        DocV::Nest(_, c) => 1 + doc_size(*c),
        DocV::Text(_) => 1,
        DocV::Line => 1,
        DocV::Or(a, b) => 1 + doc_size(*a) + doc_size(*b),
    }
}

/// The total size of the documents on a layout stack.
pub open spec fn stack_size(ls: Seq<(nat, DocV)>) -> nat
    decreases ls.len(),
{
    if ls.len() == 0 {
        0
    } else {
        stack_size(ls.drop_last()) + doc_size(ls.last().1)
    }
}

pub proof fn lemma_stack_size_push(ls: Seq<(nat, DocV)>, x: (nat, DocV))
    ensures
        stack_size(ls.push(x)) == stack_size(ls) + doc_size(x.1),
{
    assert(ls.push(x).drop_last() =~= ls);
}

/// Wadler's `be`: the best layout of the stack of indented documents `ls`
/// (its last element first) for a line `width`, the current column being `cur`.
pub open spec fn be_spec(width: nat, cur: nat, ls: Seq<(nat, DocV)>) -> NormV
    decreases stack_size(ls),
{
    if ls.len() == 0 {
        NormV::Nil
    } else {
        let i = ls.last().0;
        let rest = ls.drop_last();
        proof {
            assert(ls =~= rest.push(ls.last()));
            lemma_stack_size_push(rest, ls.last());
        }
        match ls.last().1 {
            DocV::Nil => be_spec(width, cur, rest),
            DocV::Concat(a, b) => {
                proof {
                    lemma_stack_size_push(rest, (i, *b));
                    lemma_stack_size_push(rest.push((i, *b)), (i, *a));
                }
                be_spec(width, cur, rest.push((i, *b)).push((i, *a)))
            },
            DocV::Nest(k, c) => {
                proof {
                    lemma_stack_size_push(rest, (i + k, *c));
                }
                be_spec(width, cur, rest.push((i + k, *c)))
            },
            DocV::Text(s) => NormV::Text(s, Box::new(be_spec(width, cur + s.len(), rest))),
            DocV::Line => NormV::Line(i, Box::new(be_spec(width, i, rest))),
            DocV::Or(a, b) => {
                proof {
                    lemma_stack_size_push(rest, (i, *a));
                    lemma_stack_size_push(rest, (i, *b));
                }
                let la = be_spec(width, cur, rest.push((i, *a)));
                if width > cur && fits_spec(la, width - cur) {
                    la
                } else {
                    be_spec(width, cur, rest.push((i, *b)))
                }
            },
        }
    }
}

/// The best layout of a document for a line width.
pub open spec fn best_spec(d: DocV, width: nat) -> NormV {
    be_spec(width, 0, seq![(0nat, d)])
}

/// The text of the best layout of a document for a line width.
pub open spec fn pretty_spec(d: DocV, width: nat) -> Seq<char> {
    render(best_spec(d, width))
}


/// The number of characters in the texts of a document, taking at each
/// choice the alternative with more.
pub open spec fn text_total(d: DocV) -> nat
    decreases d,
{
    match d {
        DocV::Nil => 0,
        DocV::Concat(a, b) => text_total(*a) + text_total(*b),
        DocV::Nest(_, c) => text_total(*c),
        DocV::Text(s) => s.len(),
        DocV::Line => 0,
        DocV::Or(a, b) => max_nat(text_total(*a), text_total(*b)),
    }
}

/// The sum of the indents of the nests of a document, taking at each
/// choice the alternative with more.
pub open spec fn nest_total(d: DocV) -> nat
    decreases d,
{
    match d {
        DocV::Nil => 0,
        DocV::Concat(a, b) => nest_total(*a) + nest_total(*b),
        DocV::Nest(k, c) => k + nest_total(*c),
        DocV::Text(_) => 0,
        DocV::Line => 0,
        DocV::Or(a, b) => max_nat(nest_total(*a), nest_total(*b)),
    }
}

pub open spec fn max_nat(a: nat, b: nat) -> nat {
    if a >= b {
        a
    } else {
        b
    }
}

pub open spec fn stack_text(ls: Seq<(nat, DocV)>) -> nat
    decreases ls.len(),
{
    if ls.len() == 0 {
        0
    } else {
        stack_text(ls.drop_last()) + text_total(ls.last().1)
    }
}

pub proof fn lemma_stack_text_push(ls: Seq<(nat, DocV)>, x: (nat, DocV))
    ensures
        stack_text(ls.push(x)) == stack_text(ls) + text_total(x.1),
{
    assert(ls.push(x).drop_last() =~= ls);
}

/// The columns and indents that laying out `ls` from column `cur` reaches
/// all fit in a `usize`.
pub open spec fn layout_bounded(cur: nat, ls: Seq<(nat, DocV)>) -> bool {
    &&& cur + stack_text(ls) <= usize::MAX
    &&& forall|k: int|
        0 <= k < ls.len() ==> #[trigger] ls[k].0 + nest_total(ls[k].1) + stack_text(ls) <= usize::MAX
}

/// A document whose layout can be computed without overflow.
pub open spec fn doc_bounded(d: DocV) -> bool {
    nest_total(d) + text_total(d) <= usize::MAX
}

pub open spec fn stack_view(ls: Seq<(usize, Doc)>) -> Seq<(nat, DocV)> {
    ls.map_values(|p: (usize, Doc)| (p.0 as nat, p.1@))
}

impl NormDoc {
    fn text(content: String, rest: NormDoc) -> (n: NormDoc)
        ensures
            n@ == NormV::Text(content@, Box::new(rest@)),
    {
        NormDoc::Text { content, rest: Box::new(rest) }
    }

    fn line(indent: usize, rest: NormDoc) -> (n: NormDoc)
        ensures
            n@ == NormV::Line(indent as nat, Box::new(rest@)),
    {
        NormDoc::Line { indent, rest: Box::new(rest) }
    }

    /// Whether the first line of the layout takes at most `width` bytes.
    fn fits(&self, width: usize) -> (b: bool)
        ensures
            b == fits_spec(self@, width as int),
        decreases self,
    {
        match self {
            NormDoc::Nil => true,
            NormDoc::Line { indent: _, rest: _ } => true,
            NormDoc::Text { content, rest } => {
                let n = content.as_str().len();
                width >= n && rest.fits(width - n)
            },
        }
    }

    /// The characters of the layout: texts as they are, each line break as a
    /// newline followed by exactly its indentation in spaces.
    pub fn to_string(&self) -> (s: String)
        ensures
            s@ == render(self@),
    {
        let mut out = String::new();
        let mut cur = self;
        loop
            invariant
                out@ + render(cur@) == render(self@),
            decreases cur,
        {
            match cur {
                NormDoc::Nil => {
                    assert(out@ + render(cur@) =~= out@);
                    return out;
                },
                NormDoc::Text { content, rest } => {
                    let ghost before = out@;
                    out.append(content.as_str());
                    assert(before + render(cur@) =~= out@ + render(rest@));
                    cur = rest;
                },
                NormDoc::Line { indent, rest } => {
                    let ghost before = out@;
                    let nl = "\n";
                    proof {
                        reveal_strlit("\n");
                    }
                    out.append(nl);
                    let sp = " ";
                    proof {
                        reveal_strlit(" ");
                    }
                    let mut k: usize = 0;
                    while k < *indent
                        invariant
                            k <= *indent,
                            sp@ == seq![' '],
                            out@ =~= before + seq!['\n'] + Seq::new(k as nat, |i: int| ' '),
                        decreases *indent - k,
                    {
                        out.append(sp);
                        k = k + 1;
                    }
                    assert(Seq::new(k as nat, |i: int| ' ') =~= padding(*indent as nat));
                    assert(before + render(cur@) =~= out@ + render(rest@));
                    cur = rest;
                },
            }
        }
    }
}


proof fn lemma_stack_view_push(ls: Seq<(usize, Doc)>, x: (usize, Doc))
    ensures
        stack_view(ls.push(x)) == stack_view(ls).push((x.0 as nat, x.1@)),
{
    assert(stack_view(ls.push(x)) =~= stack_view(ls).push((x.0 as nat, x.1@)));
}

proof fn lemma_stack_view_pop(ls: Seq<(usize, Doc)>)
    requires
        ls.len() > 0,
    ensures
        stack_view(ls.subrange(0, ls.len() - 1)) == stack_view(ls).drop_last(),
        stack_view(ls).last() == (ls.last().0 as nat, ls.last().1@),
{
    assert(stack_view(ls.subrange(0, ls.len() - 1)) =~= stack_view(ls).drop_last());
}

/// Replacing the last document of a stack by others whose texts and
/// nests are no larger keeps the stack bounded.
proof fn lemma_bounded_replace(
    cur: nat,
    rest: Seq<(nat, DocV)>,
    top: (nat, DocV),
    new_cur: nat,
    pushed: Seq<(nat, DocV)>,
)
    requires
        layout_bounded(cur, rest.push(top)),
        new_cur + stack_text(rest + pushed) <= usize::MAX,
        stack_text(rest + pushed) <= stack_text(rest.push(top)),
        forall|k: int|
            0 <= k < pushed.len() ==> #[trigger] pushed[k].0 + nest_total(pushed[k].1) <= top.0
                + nest_total(top.1),
    ensures
        layout_bounded(new_cur, rest + pushed),
{
    let ls = rest.push(top);
    let nl = rest + pushed;
    assert forall|k: int| 0 <= k < nl.len() implies #[trigger] nl[k].0 + nest_total(nl[k].1)
        + stack_text(nl) <= usize::MAX by {
        if k < rest.len() {
            assert(nl[k] == ls[k]);
        } else {
            assert(nl[k] == pushed[k - rest.len()]);
            assert(ls[rest.len() as int] == top);
        }
    }
}

/// A copy of a layout stack.
fn copy_stack(v: &Vec<(usize, Doc)>) -> (r: Vec<(usize, Doc)>)
    ensures
        stack_view(r@) == stack_view(v@),
{
    let mut r: Vec<(usize, Doc)> = Vec::new();
    let mut k: usize = 0;
    while k < v.len()
        invariant
            k <= v.len(),
            stack_view(r@) == stack_view(v@.subrange(0, k as int)),
        decreases v.len() - k,
    {
        let d = v[k].1.copy();
        proof {
            lemma_stack_view_push(r@, (v[k as int].0, d));
            assert(v@.subrange(0, k + 1) =~= v@.subrange(0, k as int).push(v@[k as int]));
            lemma_stack_view_push(v@.subrange(0, k as int), v@[k as int]);
        }
        r.push((v[k].0, d));
        k = k + 1;
    }
    assert(v@.subrange(0, k as int) =~= v@);
    r
}

impl Doc {
    /// Wadler's `be`: lays out the stack `layouts` (its last element first)
    /// from column `current`, choosing at each alternative the first one
    /// whose first line fits in `width`.
    fn be(width: usize, current: usize, layouts: &mut Vec<(usize, Doc)>) -> (n: NormDoc)
        requires
            layout_bounded(current as nat, stack_view(old(layouts)@)),
        ensures
            n@ == be_spec(width as nat, current as nat, stack_view(old(layouts)@)),
        decreases stack_size(stack_view(old(layouts)@)),
    {
        let ghost ls = stack_view(layouts@);
        let top = layouts.pop();
        match top {
            None => NormDoc::Nil,
            Some(entry) => {
                let (i, d) = entry;
                let ghost rest = stack_view(layouts@);
                proof {
                    lemma_stack_view_pop(old(layouts)@);
                    assert(ls =~= rest.push((i as nat, d@)));
                    lemma_stack_size_push(rest, (i as nat, d@));
                    lemma_stack_text_push(rest, (i as nat, d@));
                }
                match d {
                    Doc::Nil => {
                        proof {
                            lemma_bounded_replace(current as nat, rest, (i as nat, d@), current as nat, seq![]);
                            assert(rest + seq![] =~= rest);
                        }
                        Doc::be(width, current, layouts)
                    },
                    Doc::Concat(a, b) => {
                        let ghost pushed = seq![(i as nat, b@), (i as nat, a@)];
                        proof {
                            lemma_stack_text_push(rest, (i as nat, b@));
                            lemma_stack_text_push(rest.push((i as nat, b@)), (i as nat, a@));
                            lemma_stack_size_push(rest, (i as nat, b@));
                            lemma_stack_size_push(rest.push((i as nat, b@)), (i as nat, a@));
                            assert(rest.push((i as nat, b@)).push((i as nat, a@)) =~= rest + pushed);
                            lemma_bounded_replace(current as nat, rest, (i as nat, d@), current as nat, pushed);
                            lemma_stack_view_push(layouts@, (i, *b));
                            lemma_stack_view_push(layouts@.push((i, *b)), (i, *a));
                        }
                        layouts.push((i, *b));
                        layouts.push((i, *a));
                        Doc::be(width, current, layouts)
                    },
                    Doc::Nest { indent, content } => {
                        let ghost pushed = seq![((i + indent) as nat, content@)];
                        proof {
                            lemma_stack_text_push(rest, ((i + indent) as nat, content@));
                            lemma_stack_size_push(rest, ((i + indent) as nat, content@));
                            assert(rest.push(((i + indent) as nat, content@)) =~= rest + pushed);
                            lemma_bounded_replace(current as nat, rest, (i as nat, d@), current as nat, pushed);
                            assert(ls[ls.len() - 1] == (i as nat, d@));
                        }
                        let j = i + indent;
                        proof {
                            lemma_stack_view_push(layouts@, (j, *content));
                        }
                        layouts.push((j, *content));
                        Doc::be(width, current, layouts)
                    },
                    Doc::Text(str) => {
                        let len = str.as_str().unicode_len();
                        proof {
                            lemma_bounded_replace(current as nat, rest, (i as nat, d@), (current + len) as nat, seq![]);
                            assert(rest + seq![] =~= rest);
                        }
                        let tail = Doc::be(width, current + len, layouts);
                        NormDoc::text(str, tail)
                    },
                    Doc::Line => {
                        proof {
                            assert(ls[ls.len() - 1] == (i as nat, d@));
                            assert(ls[ls.len() - 1].0 + nest_total(ls[ls.len() - 1].1) + stack_text(ls) <= usize::MAX);
                            lemma_bounded_replace(current as nat, rest, (i as nat, d@), i as nat, seq![]);
                            assert(rest + seq![] =~= rest);
                        }
                        let tail = Doc::be(width, i, layouts);
                        NormDoc::line(i, tail)
                    },
                    Doc::Or(a, b) => {
                        let ghost pa = seq![(i as nat, a@)];
                        let ghost pb = seq![(i as nat, b@)];
                        proof {
                            lemma_stack_text_push(rest, (i as nat, a@));
                            lemma_stack_text_push(rest, (i as nat, b@));
                            lemma_stack_size_push(rest, (i as nat, a@));
                            lemma_stack_size_push(rest, (i as nat, b@));
                            assert(rest.push((i as nat, a@)) =~= rest + pa);
                            assert(rest.push((i as nat, b@)) =~= rest + pb);
                            lemma_bounded_replace(current as nat, rest, (i as nat, d@), current as nat, pa);
                            lemma_bounded_replace(current as nat, rest, (i as nat, d@), current as nat, pb);
                        }
                        let mut alt = copy_stack(layouts);
                        proof {
                            lemma_stack_view_push(alt@, (i, *a));
                        }
                        alt.push((i, *a));
                        let first = Doc::be(width, current, &mut alt);
                        if width > current && first.fits(width - current) {
                            first
                        } else {
                            proof {
                                lemma_stack_view_push(layouts@, (i, *b));
                            }
                            layouts.push((i, *b));
                            Doc::be(width, current, layouts)
                        }
                    },
                }
            },
        }
    }

    /// The best layout of the document for a line of `width` characters.
    fn best(self, width: usize) -> (n: NormDoc)
        requires
            doc_bounded(self@),
        ensures
            n@ == best_spec(self@, width as nat),
    {
        let ghost d = self@;
        let mut v: Vec<(usize, Doc)> = Vec::new();
        v.push((0, self));
        proof {
            assert(stack_view(v@) =~= seq![(0nat, d)]);
            assert(seq![(0nat, d)] =~= Seq::<(nat, DocV)>::empty().push((0nat, d)));
            lemma_stack_text_push(Seq::<(nat, DocV)>::empty(), (0nat, d));
            assert(seq![(0nat, d)][0] == (0nat, d));
        }
        Doc::be(width, 0, &mut v)
    }
}


/// Unicode's `White_Space` characters, which `char::is_whitespace` accepts.
pub open spec fn is_ws(c: char) -> bool {
    ||| '\u{9}' <= c <= '\u{d}'
    ||| c == ' '
    ||| c == '\u{85}'
    ||| c == '\u{a0}'
    ||| c == '\u{1680}'
    ||| '\u{2000}' <= c <= '\u{200a}'
    ||| c == '\u{2028}'
    ||| c == '\u{2029}'
    ||| c == '\u{202f}'
    ||| c == '\u{205f}'
    ||| c == '\u{3000}'
}

/// Whether a character is white space, as `char::is_whitespace` tells.
pub fn is_whitespace(c: char) -> (b: bool)
    ensures
        b == is_ws(c),
{
    ('\u{9}' <= c && c <= '\u{d}') || c == ' ' || c == '\u{85}' || c == '\u{a0}' || c == '\u{1680}'
        || ('\u{2000}' <= c && c <= '\u{200a}') || c == '\u{2028}' || c == '\u{2029}' || c
        == '\u{202f}' || c == '\u{205f}' || c == '\u{3000}'
}

/// The number of characters before the first white space.
pub open spec fn word_len(s: Seq<char>) -> nat
    decreases s.len(),
{
    if s.len() == 0 || is_ws(s[0]) {
        0
    } else {
        1 + word_len(s.drop_first())
    }
}

pub proof fn lemma_word_len_bound(s: Seq<char>)
    ensures
        word_len(s) <= s.len(),
        s.len() > 0 && !is_ws(s[0]) ==> word_len(s) >= 1,
    decreases s.len(),
{
    if s.len() > 0 && !is_ws(s[0]) {
        lemma_word_len_bound(s.drop_first());
    }
}

/// The maximal runs of non-white-space characters, in order: what
/// `str::split_whitespace` yields.
pub open spec fn words(s: Seq<char>) -> Seq<Seq<char>>
    decreases s.len(),
{
    if s.len() == 0 {
        Seq::empty()
    } else if is_ws(s[0]) {
        words(s.drop_first())
    } else {
        proof {
            lemma_word_len_bound(s);
        }
        seq![s.take(word_len(s) as int)] + words(s.skip(word_len(s) as int))
    }
}

/// Words joined by breakable spaces, as `Doc::prose` folds them.
pub open spec fn prose_fold(ws: Seq<Seq<char>>) -> DocV
    decreases ws.len(),
{
    if ws.len() == 0 {
        DocV::Nil
    } else {
        let acc = prose_fold(ws.drop_last());
        match acc {
            DocV::Nil => DocV::Text(ws.last()),
            _ => concat(concat(acc, break_space_spec()), DocV::Text(ws.last())),
        }
    }
}

pub open spec fn prose_spec(data: Seq<char>) -> DocV {
    prose_fold(words(data))
}

pub open spec fn docs_view(xs: Seq<Doc>) -> Seq<DocV> {
    xs.map_values(|d: Doc| d@)
}

/// Wadler's `fill` of a list of documents.
pub open spec fn fill_spec(xs: Seq<DocV>) -> DocV {
    if xs.len() == 0 {
        DocV::Nil
    } else if xs.len() == 1 {
        xs[0]
    } else {
        fill_from_spec(xs[0], xs[1], xs.skip(2))
    }
}

pub open spec fn fill_from_spec(x: DocV, y: DocV, rest: Seq<DocV>) -> DocV
    decreases rest.len(), 1nat,
{
    choice(
        concat(concat(flat(x), DocV::Text(seq![' '])), fill_with_head_spec(flat(y), rest)),
        concat(concat(x, DocV::Line), fill_with_head_spec(y, rest)),
    )
}

pub open spec fn fill_with_head_spec(head: DocV, rest: Seq<DocV>) -> DocV
    decreases rest.len(), 0nat,
{
    if rest.len() == 0 {
        head
    } else {
        fill_from_spec(head, rest[0], rest.skip(1))
    }
}

/// Documents joined by line breaks; empty documents at the start are skipped.
pub open spec fn join_spec(ds: Seq<DocV>) -> DocV
    decreases ds.len(),
{
    if ds.len() == 0 {
        DocV::Nil
    } else {
        let acc = join_spec(ds.drop_last());
        match acc {
            DocV::Nil => ds.last(),
            _ => concat(concat(acc, DocV::Line), ds.last()),
        }
    }
}

impl Doc {
    /// A paragraph: the words of `data`, separated by spaces that may break.
    pub fn prose(data: &str) -> (d: Doc)
        ensures
            d@ == prose_spec(data@),
    {
        let n = data.unicode_len();
        let mut acc = Doc::Nil;
        let mut i: usize = 0;
        let ghost mut done: Seq<Seq<char>> = Seq::empty();
        assert(data@.skip(0) =~= data@);
        while i < n
            invariant
                n == data@.len(),
                i <= n,
                acc@ == prose_fold(done),
                words(data@) == done + words(data@.skip(i as int)),
            decreases n - i,
        {
            let c = data.get_char(i);
            if is_whitespace(c) {
                assert(data@.skip(i as int).drop_first() =~= data@.skip(i + 1));
                i = i + 1;
            } else {
                proof {
                    assert(data@.skip(i as int)[0] == data@[i as int]);
                    assert(data@.skip(i as int).drop_first() =~= data@.skip(i + 1));
                }
                let mut j: usize = i + 1;
                while j < n && !is_whitespace(data.get_char(j))
                    invariant
                        n == data@.len(),
                        i < j <= n,
                        forall|k: int| i <= k < j ==> !is_ws(#[trigger] data@[k]),
                        word_len(data@.skip(i as int)) == (j - i) + word_len(data@.skip(j as int)),
                    decreases n - j,
                {
                    assert(data@.skip(j as int).drop_first() =~= data@.skip(j + 1));
                    assert(data@.skip(j as int)[0] == data@[j as int]);
                    j = j + 1;
                }
                proof {
                    assert(data@.skip(i as int).drop_first() =~= data@.skip(i + 1));
                    if j < n {
                        assert(word_len(data@.skip(j as int)) == 0);
                    } else {
                        assert(data@.skip(j as int).len() == 0);
                    }
                    assert(data@.skip(i as int).take(word_len(data@.skip(i as int)) as int)
                        =~= data@.subrange(i as int, j as int));
                    assert(data@.skip(i as int).skip(word_len(data@.skip(i as int)) as int)
                        =~= data@.skip(j as int));
                }
                let w = Doc::text(data.substring_char(i, j));
                proof {
                    reveal_with_fuel(Doc::model, 3);
                }
                acc = match acc {
                    Doc::Nil => w,
                    x => Doc::Concat(Box::new(Doc::Concat(Box::new(x), Box::new(Doc::break_space()))), Box::new(w)),
                };
                proof {
                    let nd = done.push(data@.subrange(i as int, j as int));
                    assert(nd.drop_last() =~= done);
                    assert(done + words(data@.skip(i as int)) =~= nd + words(data@.skip(j as int)));
                    done = nd;
                }
                i = j;
            }
        }
        proof {
            assert(data@.skip(n as int).len() == 0);
            assert(done + words(data@.skip(n as int)) =~= done);
        }
        acc
    }
}

/// Wadler's `fill`: the documents side by side, each gap a space where the
/// next one fits on the line and a line break where it does not.
pub fn fill(xs: &[Doc]) -> (d: Doc)
    ensures
        d@ == fill_spec(docs_view(xs@)),
{
    if xs.len() == 0 {
        Doc::Nil
    } else if xs.len() == 1 {
        xs[0].copy()
    } else {
        proof {
            assert(docs_view(xs@).skip(2) =~= docs_view(xs@.skip(2)));
        }
        fill_from(xs[0].copy(), xs[1].copy(), xs, 2)
    }
}

fn fill_from(x: Doc, y: Doc, xs: &[Doc], start: usize) -> (d: Doc)
    requires
        start <= xs@.len(),
    ensures
        d@ == fill_from_spec(x@, y@, docs_view(xs@.skip(start as int))),
    decreases xs@.len() - start, 1nat,
{
    let ghost rest = docs_view(xs@.skip(start as int));
    let ghost xv = x@;
    let ghost yv = y@;
    let fx = x.flatten();
    let l1 = Doc::Concat(Box::new(fx), Box::new(space()));
    assert(l1@ == concat(flat(xv), DocV::Text(seq![' '])));
    let lt = fill_with_head(y.flatten(), xs, start);
    let left = Doc::Concat(Box::new(l1), Box::new(lt));
    assert(left@ == concat(concat(flat(xv), DocV::Text(seq![' '])), fill_with_head_spec(flat(yv), rest)));
    let r1 = Doc::Concat(Box::new(x), Box::new(Doc::Line));
    assert(r1@ == concat(xv, DocV::Line)) by {
        reveal_with_fuel(Doc::model, 2);
    }
    let rt = fill_with_head(y, xs, start);
    let right = Doc::Concat(Box::new(r1), Box::new(rt));
    assert(right@ == concat(concat(xv, DocV::Line), fill_with_head_spec(yv, rest)));
    Doc::Or(Box::new(left), Box::new(right))
}

fn fill_with_head(head: Doc, xs: &[Doc], start: usize) -> (d: Doc)
    requires
        start <= xs@.len(),
    ensures
        d@ == fill_with_head_spec(head@, docs_view(xs@.skip(start as int))),
    decreases xs@.len() - start, 0nat,
{
    if start == xs.len() {
        head
    } else {
        proof {
            assert(docs_view(xs@.skip(start as int)).skip(1) =~= docs_view(xs@.skip(start + 1)));
        }
        fill_from(head, xs[start].copy(), xs, start + 1)
    }
}

/// A collection of documents that can be joined line by line.
pub trait Fillable: Sized {
    spec fn docs(&self) -> Seq<DocV>;

    /// The documents, separated by line breaks.
    fn join(self) -> (d: Doc)
        ensures
            d@ == join_spec(self.docs()),
    ;
}

impl Fillable for Vec<Doc> {
    open spec fn docs(&self) -> Seq<DocV> {
        docs_view(self@)
    }

    fn join(self) -> (d: Doc) {
        let mut acc = Doc::Nil;
        let mut k: usize = 0;
        let mut items = self;
        let ghost all = docs_view(items@);
        let n = items.len();
        let mut rev: Vec<Doc> = Vec::new();
        while items.len() > 0
            invariant
                items@.len() + rev@.len() == n,
                n == all.len(),
                forall|m: int| 0 <= m < items@.len() ==> #[trigger] items@[m]@ == all[m],
                forall|m: int| 0 <= m < rev@.len() ==> #[trigger] rev@[m]@ == all[n - 1 - m],
            decreases items@.len(),
        {
            let d = items.pop().unwrap();
            rev.push(d);
        }
        while rev.len() > 0
            invariant
                k + rev@.len() == n,
                n == all.len(),
                forall|m: int| 0 <= m < rev@.len() ==> #[trigger] rev@[m]@ == all[n - 1 - m],
                acc@ == join_spec(all.take(k as int)),
            decreases rev@.len(),
        {
            let d = rev.pop().unwrap();
            proof {
                reveal_with_fuel(Doc::model, 3);
                assert(all.take(k + 1).drop_last() =~= all.take(k as int));
                assert(all.take(k + 1).last() == all[k as int]);
                assert(d@ == all[k as int]);
            }
            acc = match acc {
                Doc::Nil => d,
                doc => Doc::Concat(Box::new(Doc::Concat(Box::new(doc), Box::new(Doc::Line))), Box::new(d)),
            };
            k = k + 1;
        }
        assert(all.take(n as int) =~= all);
        acc
    }
}

impl Default for Doc {
    fn default() -> (d: Doc)
        ensures
            d@ == DocV::Nil,
    {
        Doc::Nil
    }
}

/// Values that can be pretty printed through a document.
pub trait Pretty {
    /// The document that stands for the value.
    spec fn doc_spec(&self) -> DocV;

    fn to_doc(&self) -> (d: Doc)
        ensures
            d@ == self.doc_spec(),
    ;

    /// The best layout of the value's document for the given line width.
    fn pretty(&self, target_line_width: usize) -> (s: String)
        requires
            doc_bounded(self.doc_spec()),
        ensures
            s@ == pretty_spec(self.doc_spec(), target_line_width as nat),
    {
        self.to_doc().best(target_line_width).to_string()
    }
}


impl Doc {
    /// `text_total` of the document, where it fits in a `usize`.
    fn text_weight(&self) -> (r: Option<usize>)
        ensures
            r matches Some(w) ==> w == text_total(self@),
            r is None ==> text_total(self@) > usize::MAX,
        decreases self,
    {
        match self {
            Doc::Nil => Some(0),
            Doc::Line => Some(0),
            Doc::Text(s) => Some(s.as_str().unicode_len()),
            Doc::Nest { indent: _, content } => content.text_weight(),
            Doc::Concat(a, b) => match (a.text_weight(), b.text_weight()) {
                (Some(x), Some(y)) => x.checked_add(y),
                _ => None,
            },
            Doc::Or(a, b) => match (a.text_weight(), b.text_weight()) {
                (Some(x), Some(y)) => Some(if x >= y { x } else { y }),
                _ => None,
            },
        }
    }

    /// `nest_total` of the document, where it fits in a `usize`.
    fn nest_weight(&self) -> (r: Option<usize>)
        ensures
            r matches Some(w) ==> w == nest_total(self@),
            r is None ==> nest_total(self@) > usize::MAX,
        decreases self,
    {
        match self {
            Doc::Nil => Some(0),
            Doc::Line => Some(0),
            Doc::Text(_) => Some(0),
            Doc::Nest { indent, content } => match content.nest_weight() {
                Some(w) => indent.checked_add(w),
                None => None,
            },
            Doc::Concat(a, b) => match (a.nest_weight(), b.nest_weight()) {
                (Some(x), Some(y)) => x.checked_add(y),
                _ => None,
            },
            Doc::Or(a, b) => match (a.nest_weight(), b.nest_weight()) {
                (Some(x), Some(y)) => Some(if x >= y { x } else { y }),
                _ => None,
            },
        }
    }

    /// Whether the layout of the document stays within the machine's integers.
    pub fn within_limits(&self) -> (b: bool)
        ensures
            b == doc_bounded(self@),
    {
        match (self.nest_weight(), self.text_weight()) {
            (Some(n), Some(t)) => n.checked_add(t).is_some(),
            _ => false,
        }
    }
}


/// A document is pretty printed as it stands.
impl Pretty for Doc {
    open spec fn doc_spec(&self) -> DocV {
        self@
    }

    fn to_doc(&self) -> (d: Doc) {
        self.copy()
    }
}


/// The texts of a flat document, left to right.
pub open spec fn leaves(d: DocV) -> Seq<Seq<char>>
    decreases d,
{
    match d {
        DocV::Concat(a, b) => leaves(*a) + leaves(*b),
        DocV::Text(s) => seq![s],
        _ => Seq::empty(),
    }
}

/// The texts of a stack of flat documents, from its last element down.
pub open spec fn stack_leaves(ls: Seq<(nat, DocV)>) -> Seq<Seq<char>>
    decreases ls.len(),
{
    if ls.len() == 0 {
        Seq::empty()
    } else {
        leaves(ls.last().1) + stack_leaves(ls.drop_last())
    }
}

/// A layout made of the given texts, in order, with no line break.
pub open spec fn text_chain(ss: Seq<Seq<char>>) -> NormV
    decreases ss.len(),
{
    if ss.len() == 0 {
        NormV::Nil
    } else {
        NormV::Text(ss[0], Box::new(text_chain(ss.drop_first())))
    }
}

/// The texts joined.
pub open spec fn joined(ss: Seq<Seq<char>>) -> Seq<char>
    decreases ss.len(),
{
    if ss.len() == 0 {
        Seq::empty()
    } else {
        ss[0] + joined(ss.drop_first())
    }
}

/// The number of bytes of the texts.
pub open spec fn bytes_total(ss: Seq<Seq<char>>) -> int
    decreases ss.len(),
{
    if ss.len() == 0 {
        0
    } else {
        byte_len(ss[0]) + bytes_total(ss.drop_first())
    }
}

/// The text of the flat layout of a document.
pub open spec fn flat_text(d: DocV) -> Seq<char> {
    joined(leaves(flat(d)))
}

/// The number of bytes of the flat layout of a document.
pub open spec fn flat_width(d: DocV) -> int {
    bytes_total(leaves(flat(d)))
}

pub open spec fn all_flat(ls: Seq<(nat, DocV)>) -> bool {
    forall|k: int| 0 <= k < ls.len() ==> is_flat(#[trigger] ls[k].1)
}

/// Flattening a document gives a flat document.
pub proof fn lemma_flat_is_flat(d: DocV)
    ensures
        is_flat(flat(d)),
    decreases d,
{
    match d {
        DocV::Concat(a, b) => {
            lemma_flat_is_flat(*a);
            lemma_flat_is_flat(*b);
        },
        DocV::Nest(_, c) => lemma_flat_is_flat(*c),
        DocV::Or(a, _) => lemma_flat_is_flat(*a),
        _ => {},
    }
}

/// A flat document is its own flat layout.
pub proof fn lemma_flat_of_flat(d: DocV)
    requires
        is_flat(d),
    ensures
        flat(d) == d,
    decreases d,
{
    match d {
        DocV::Concat(a, b) => {
            lemma_flat_of_flat(*a);
            lemma_flat_of_flat(*b);
        },
        _ => {},
    }
}

/// Flattening twice is flattening once.
pub proof fn law_flatten_idempotent(d: DocV)
    ensures
        flat(flat(d)) == flat(d),
{
    lemma_flat_is_flat(d);
    lemma_flat_of_flat(flat(d));
}

/// Both alternatives of a group have the same flat layout, as every choice
/// of a document should.
pub proof fn law_group_alternatives_agree(d: DocV)
    ensures
        group_spec(d) matches DocV::Or(a, b) && flat(*a) == flat(*b),
{
    law_flatten_idempotent(d);
}

/// Laying out a stack of flat documents puts their texts on one line.
proof fn lemma_be_flat(width: nat, cur: nat, ls: Seq<(nat, DocV)>)
    requires
        all_flat(ls),
    ensures
        be_spec(width, cur, ls) == text_chain(stack_leaves(ls)),
    decreases stack_size(ls),
{
    if ls.len() > 0 {
        let i = ls.last().0;
        let rest = ls.drop_last();
        assert(ls =~= rest.push(ls.last()));
        lemma_stack_size_push(rest, ls.last());
        assert(is_flat(ls[ls.len() - 1].1));
        assert(all_flat(rest)) by {
            assert forall|k: int| 0 <= k < rest.len() implies is_flat(#[trigger] rest[k].1) by {
                assert(rest[k] == ls[k]);
            }
        }
        match ls.last().1 {
            DocV::Nil => {
                lemma_be_flat(width, cur, rest);
                lemma_stack_leaves_push(rest, ls.last());
                assert(stack_leaves(ls) =~= stack_leaves(rest));
                assert(be_spec(width, cur, ls) == be_spec(width, cur, rest));
            },
            DocV::Concat(a, b) => {
                let l2 = rest.push((i, *b)).push((i, *a));
                lemma_stack_size_push(rest, (i, *b));
                lemma_stack_size_push(rest.push((i, *b)), (i, *a));
                assert(all_flat(l2)) by {
                    assert forall|k: int| 0 <= k < l2.len() implies is_flat(#[trigger] l2[k].1) by {
                        if k < rest.len() {
                            assert(l2[k] == rest[k]);
                        }
                    }
                }
                lemma_be_flat(width, cur, l2);
                lemma_stack_leaves_push(rest.push((i, *b)), (i, *a));
                lemma_stack_leaves_push(rest, (i, *b));
                lemma_stack_leaves_push(rest, ls.last());
                assert(stack_leaves(ls) =~= (leaves(*a) + leaves(*b)) + stack_leaves(rest));
                assert(be_spec(width, cur, ls) == be_spec(width, cur, l2));
                assert(stack_leaves(l2) =~= stack_leaves(ls));
            },
            DocV::Text(t) => {
                lemma_be_flat(width, cur + t.len(), rest);
                lemma_stack_leaves_push(rest, ls.last());
                assert(stack_leaves(ls) =~= seq![t] + stack_leaves(rest));
                assert((seq![t] + stack_leaves(rest)).drop_first() =~= stack_leaves(rest));
                assert(be_spec(width, cur, ls) == NormV::Text(t, Box::new(be_spec(width, cur + t.len(), rest))));
                assert(text_chain(stack_leaves(ls)) == NormV::Text(t, Box::new(text_chain(stack_leaves(rest)))));
            },
            _ => {
                assert(false);
            },
        }
    } else {
        assert(stack_leaves(ls) =~= Seq::<Seq<char>>::empty());
        assert(text_chain(stack_leaves(ls)) == NormV::Nil);
    }
}

proof fn lemma_stack_leaves_push(ls: Seq<(nat, DocV)>, x: (nat, DocV))
    ensures
        stack_leaves(ls.push(x)) == leaves(x.1) + stack_leaves(ls),
        stack_leaves(Seq::<(nat, DocV)>::empty()) == Seq::<Seq<char>>::empty(),
{
    assert(ls.push(x).drop_last() =~= ls);
}

proof fn lemma_render_chain(ss: Seq<Seq<char>>)
    ensures
        render(text_chain(ss)) == joined(ss),
    decreases ss.len(),
{
    if ss.len() > 0 {
        lemma_render_chain(ss.drop_first());
    }
}

proof fn lemma_byte_len_nonneg(s: Seq<char>)
    ensures
        byte_len(s) >= 0,
{
}

proof fn lemma_fits_chain(ss: Seq<Seq<char>>, width: int)
    requires
        width >= 0,
    ensures
        fits_spec(text_chain(ss), width) == (bytes_total(ss) <= width),
    decreases ss.len(),
{
    if ss.len() > 0 {
        if width >= byte_len(ss[0]) {
            lemma_fits_chain(ss.drop_first(), width - byte_len(ss[0]));
        }
        lemma_bytes_total_nonneg(ss.drop_first());
        lemma_byte_len_nonneg(ss[0]);
        assert(text_chain(ss) == NormV::Text(ss[0], Box::new(text_chain(ss.drop_first()))));
        assert(fits_spec(text_chain(ss), width) == (width >= byte_len(ss[0]) && fits_spec(
            text_chain(ss.drop_first()),
            width - byte_len(ss[0]),
        )));
    } else {
        assert(text_chain(ss) == NormV::Nil);
    }
}

proof fn lemma_bytes_total_nonneg(ss: Seq<Seq<char>>)
    ensures
        bytes_total(ss) >= 0,
    decreases ss.len(),
{
    if ss.len() > 0 {
        lemma_bytes_total_nonneg(ss.drop_first());
        lemma_byte_len_nonneg(ss[0]);
    }
}

/// A flat document is laid out as its texts on one line, whatever the width.
pub proof fn law_flat_layout(d: DocV, width: nat)
    requires
        is_flat(d),
    ensures
        pretty_spec(d, width) == joined(leaves(d)),
{
    let ls = seq![(0nat, d)];
    assert(all_flat(ls));
    lemma_be_flat(width, 0, ls);
    assert(ls =~= Seq::<(nat, DocV)>::empty().push((0nat, d)));
    lemma_stack_leaves_push(Seq::<(nat, DocV)>::empty(), (0nat, d));
    assert(stack_leaves(ls) =~= leaves(d));
    lemma_render_chain(leaves(d));
}

/// A group is laid out flat, on one line, where that line fits in the
/// width; otherwise it is laid out as the document it groups.
pub proof fn law_group_layout(d: DocV, width: nat)
    ensures
        width > 0 && flat_width(d) <= width ==> pretty_spec(group_spec(d), width) == flat_text(d),
        width > 0 && flat_width(d) <= width ==> best_spec(group_spec(d), width) == text_chain(
            leaves(flat(d)),
        ),
        !(width > 0 && flat_width(d) <= width) ==> best_spec(group_spec(d), width) == best_spec(d, width),
{
    let g = group_spec(d);
    let ls = seq![(0nat, g)];
    let rest = ls.drop_last();
    assert(rest =~= Seq::<(nat, DocV)>::empty());
    assert(ls.last() == (0nat, g));
    let la_stack = rest.push((0nat, flat(d)));
    lemma_flat_is_flat(d);
    assert(all_flat(la_stack));
    lemma_be_flat(width, 0, la_stack);
    lemma_stack_leaves_push(rest, (0nat, flat(d)));
    assert(stack_leaves(la_stack) =~= leaves(flat(d)));
    lemma_fits_chain(leaves(flat(d)), width as int);
    lemma_render_chain(leaves(flat(d)));
    assert(la_stack =~= seq![(0nat, flat(d))]);
    assert(rest.push((0nat, d)) =~= seq![(0nat, d)]);
}


/// A document whose every choice offers two layouts with the same flat
/// form: the invariant under which `flatten` may take the first alternative.
pub open spec fn valid(d: DocV) -> bool
    decreases d,
{
    match d {
        DocV::Concat(a, b) => valid(*a) && valid(*b),
        DocV::Nest(_, c) => valid(*c),
        DocV::Or(a, b) => valid(*a) && valid(*b) && flat(*a) == flat(*b),
        _ => true,
    }
}

pub open spec fn all_valid(xs: Seq<DocV>) -> bool {
    forall|k: int| 0 <= k < xs.len() ==> valid(#[trigger] xs[k])
}

proof fn lemma_flat_valid(d: DocV)
    ensures
        valid(flat(d)),
    decreases d,
{
    match d {
        DocV::Concat(a, b) => {
            lemma_flat_valid(*a);
            lemma_flat_valid(*b);
        },
        DocV::Nest(_, c) => lemma_flat_valid(*c),
        DocV::Or(a, _) => lemma_flat_valid(*a),
        _ => {},
    }
}

/// Grouping keeps a document valid.
pub proof fn law_group_valid(d: DocV)
    requires
        valid(d),
    ensures
        valid(group_spec(d)),
{
    lemma_flat_valid(d);
    law_flatten_idempotent(d);
}

/// A bracket around a valid document is valid.
pub proof fn law_bracket_valid(d: DocV, l: Seq<char>, r: Seq<char>)
    requires
        valid(d),
    ensures
        valid(bracket_spec(d, l, r)),
{
    let inner = concat(
        concat(concat(DocV::Text(l), DocV::Nest(2, Box::new(concat(DocV::Line, d)))), DocV::Line),
        DocV::Text(r),
    );
    assert(valid(DocV::Line));
    assert(valid(DocV::Text(l)));
    assert(valid(DocV::Text(r)));
    let ld = concat(DocV::Line, d);
    assert(valid(ld));
    let n = DocV::Nest(2, Box::new(ld));
    assert(valid(n));
    let a = concat(DocV::Text(l), n);
    assert(valid(a));
    let b = concat(a, DocV::Line);
    assert(valid(b));
    assert(valid(inner));
    law_group_valid(inner);
}

/// A breakable space is valid.
pub proof fn law_break_space_valid()
    ensures
        valid(break_space_spec()),
{
    reveal_with_fuel(valid, 2);
}

/// Prose is valid.
pub proof fn law_prose_valid(ws: Seq<Seq<char>>)
    ensures
        valid(prose_fold(ws)),
    decreases ws.len(),
{
    reveal_with_fuel(valid, 4);
    if ws.len() > 0 {
        law_prose_valid(ws.drop_last());
    }
}

/// Documents joined line by line stay valid.
pub proof fn law_join_valid(ds: Seq<DocV>)
    requires
        all_valid(ds),
    ensures
        valid(join_spec(ds)),
    decreases ds.len(),
{
    if ds.len() > 0 {
        assert(valid(ds[ds.len() - 1]));
        assert(all_valid(ds.drop_last())) by {
            assert forall|k: int| 0 <= k < ds.drop_last().len() implies valid(#[trigger] ds.drop_last()[k]) by {
                assert(ds.drop_last()[k] == ds[k]);
            }
        }
        law_join_valid(ds.drop_last());
        reveal_with_fuel(valid, 3);
    }
}

proof fn lemma_all_valid_skip(xs: Seq<DocV>, n: int)
    requires
        all_valid(xs),
        0 <= n <= xs.len(),
    ensures
        all_valid(xs.skip(n)),
{
    assert forall|k: int| 0 <= k < xs.skip(n).len() implies valid(#[trigger] xs.skip(n)[k]) by {
        assert(xs.skip(n)[k] == xs[k + n]);
    }
}

/// The flat form of a fill depends on its head only through the head's flat form.
proof fn lemma_fill_with_flat_head(y: DocV, rest: Seq<DocV>)
    ensures
        flat(fill_with_head_spec(flat(y), rest)) == flat(fill_with_head_spec(y, rest)),
    decreases rest.len(),
{
    law_flatten_idempotent(y);
    if rest.len() > 0 {
        law_flatten_idempotent(flat(y));
    }
}

proof fn lemma_fill_from_valid(x: DocV, y: DocV, rest: Seq<DocV>)
    requires
        valid(x),
        valid(y),
        all_valid(rest),
    ensures
        valid(fill_from_spec(x, y, rest)),
    decreases rest.len(), 1nat,
{
    lemma_flat_valid(x);
    lemma_flat_valid(y);
    lemma_fill_with_head_valid(flat(y), rest);
    lemma_fill_with_head_valid(y, rest);
    lemma_fill_with_flat_head(y, rest);
    law_flatten_idempotent(x);
    reveal_with_fuel(valid, 4);
    reveal_with_fuel(flat, 3);
}

proof fn lemma_fill_with_head_valid(head: DocV, rest: Seq<DocV>)
    requires
        valid(head),
        all_valid(rest),
    ensures
        valid(fill_with_head_spec(head, rest)),
    decreases rest.len(), 0nat,
{
    if rest.len() > 0 {
        assert(valid(rest[0]));
        lemma_all_valid_skip(rest, 1);
        lemma_fill_from_valid(head, rest[0], rest.skip(1));
    }
}

/// The fill of valid documents is valid: in each of its choices the line
/// break and the space have the same flat form.
pub proof fn law_fill_valid(xs: Seq<DocV>)
    requires
        all_valid(xs),
    ensures
        valid(fill_spec(xs)),
{
    if xs.len() == 1 {
        assert(valid(xs[0]));
    } else if xs.len() > 1 {
        assert(valid(xs[0]));
        assert(valid(xs[1]));
        lemma_all_valid_skip(xs, 2);
        lemma_fill_from_valid(xs[0], xs[1], xs.skip(2));
    }
}


/// The most characters, indents and line breaks that one way through the
/// choices of a document meets.
pub open spec fn doc_weight(d: DocV) -> nat
    decreases d,
{
    match d {
        DocV::Nil => 0,
        DocV::Concat(a, b) => doc_weight(*a) + doc_weight(*b),
        DocV::Nest(k, c) => k + doc_weight(*c),
        DocV::Text(s) => s.len(),
        DocV::Line => 1,
        DocV::Or(a, b) => max_nat(doc_weight(*a), doc_weight(*b)),
    }
}

pub open spec fn weights(ds: Seq<DocV>) -> nat
    decreases ds.len(),
{
    if ds.len() == 0 {
        0
    } else {
        weights(ds.drop_last()) + doc_weight(ds.last())
    }
}

pub proof fn lemma_weights_concat(a: Seq<DocV>, b: Seq<DocV>)
    ensures
        weights(a + b) == weights(a) + weights(b),
    decreases b.len(),
{
    if b.len() == 0 {
        assert(a + b =~= a);
    } else {
        lemma_weights_concat(a, b.drop_last());
        assert((a + b).drop_last() =~= a + b.drop_last());
    }
}

proof fn lemma_weights_first(xs: Seq<DocV>)
    requires
        xs.len() > 0,
    ensures
        weights(xs) == doc_weight(xs[0]) + weights(xs.skip(1)),
{
    assert(xs =~= seq![xs[0]] + xs.skip(1));
    lemma_weights_concat(seq![xs[0]], xs.skip(1));
    assert(seq![xs[0]].drop_last() =~= Seq::<DocV>::empty());
    assert(weights(seq![xs[0]]) == weights(Seq::<DocV>::empty()) + doc_weight(xs[0]));
}

/// The totals that `doc_bounded` adds are each at most the weight.
pub proof fn lemma_totals_within_weight(d: DocV)
    ensures
        text_total(d) <= doc_weight(d),
        nest_total(d) <= doc_weight(d),
    decreases d,
{
    match d {
        DocV::Concat(a, b) => {
            lemma_totals_within_weight(*a);
            lemma_totals_within_weight(*b);
        },
        DocV::Nest(_, c) => lemma_totals_within_weight(*c),
        DocV::Or(a, b) => {
            lemma_totals_within_weight(*a);
            lemma_totals_within_weight(*b);
        },
        _ => {},
    }
}

/// A document whose weight is at most half the largest `usize` can be laid out.
pub proof fn lemma_bounded_by_weight(d: DocV)
    requires
        2 * doc_weight(d) <= usize::MAX,
    ensures
        doc_bounded(d),
{
    lemma_totals_within_weight(d);
}

pub proof fn lemma_flat_weight(d: DocV)
    ensures
        doc_weight(flat(d)) <= doc_weight(d),
    decreases d,
{
    match d {
        DocV::Concat(a, b) => {
            lemma_flat_weight(*a);
            lemma_flat_weight(*b);
        },
        DocV::Nest(_, c) => lemma_flat_weight(*c),
        DocV::Or(a, _) => lemma_flat_weight(*a),
        _ => {},
    }
}

proof fn lemma_fill_from_weight(x: DocV, y: DocV, rest: Seq<DocV>)
    ensures
        doc_weight(fill_from_spec(x, y, rest)) <= doc_weight(x) + doc_weight(y) + weights(rest) + rest.len() + 1,
    decreases rest.len(), 1nat,
{
    lemma_flat_weight(x);
    lemma_flat_weight(y);
    lemma_fill_with_head_weight(flat(y), rest);
    lemma_fill_with_head_weight(y, rest);
    let left = concat(concat(flat(x), DocV::Text(seq![' '])), fill_with_head_spec(flat(y), rest));
    let right = concat(concat(x, DocV::Line), fill_with_head_spec(y, rest));
    assert(doc_weight(DocV::Text(seq![' '])) == 1);
    assert(doc_weight(DocV::Line) == 1);
    assert(doc_weight(concat(flat(x), DocV::Text(seq![' ']))) == doc_weight(flat(x)) + 1);
    assert(doc_weight(concat(x, DocV::Line)) == doc_weight(x) + 1);
    assert(doc_weight(left) <= doc_weight(x) + doc_weight(y) + weights(rest) + rest.len() + 1);
    assert(doc_weight(right) <= doc_weight(x) + doc_weight(y) + weights(rest) + rest.len() + 1);
    assert(fill_from_spec(x, y, rest) == choice(left, right));
}

proof fn lemma_fill_with_head_weight(head: DocV, rest: Seq<DocV>)
    ensures
        doc_weight(fill_with_head_spec(head, rest)) <= doc_weight(head) + weights(rest) + rest.len(),
    decreases rest.len(), 0nat,
{
    if rest.len() > 0 {
        lemma_fill_from_weight(head, rest[0], rest.skip(1));
        lemma_weights_first(rest);
    }
}

/// The weight of a fill is at most the weights of its documents plus one
/// per document.
pub proof fn lemma_fill_weight(xs: Seq<DocV>)
    ensures
        doc_weight(fill_spec(xs)) <= weights(xs) + xs.len(),
{
    if xs.len() == 1 {
        lemma_weights_first(xs);
    } else if xs.len() > 1 {
        lemma_fill_from_weight(xs[0], xs[1], xs.skip(2));
        lemma_weights_first(xs);
        lemma_weights_first(xs.skip(1));
        assert(xs.skip(1).skip(1) =~= xs.skip(2));
    }
}

pub proof fn lemma_bracket_weight(d: DocV, l: Seq<char>, r: Seq<char>)
    ensures
        doc_weight(bracket_spec(d, l, r)) <= doc_weight(d) + l.len() + r.len() + 4,
{
    let inner = concat(
        concat(concat(DocV::Text(l), DocV::Nest(2, Box::new(concat(DocV::Line, d)))), DocV::Line),
        DocV::Text(r),
    );
    lemma_flat_weight(inner);
    reveal_with_fuel(doc_weight, 5);
}

// `+` puts documents side by side, `|` offers a choice between them.
impl core::ops::Add for Doc {
    type Output = Doc;

    fn add(self, rhs: Self) -> (d: Self::Output)
        ensures
            d@ == concat(self@, rhs@),
    {
        Doc::Concat(Box::new(self), Box::new(rhs))
    }
}

impl AddSpecImpl for Doc {
    open spec fn obeys_add_spec() -> bool {
        true
    }

    open spec fn add_req(self, rhs: Doc) -> bool {
        true
    }

    open spec fn add_spec(self, rhs: Doc) -> Doc {
        Doc::Concat(Box::new(self), Box::new(rhs))
    }
}

impl<'a> core::ops::Add for &'a Doc {
    type Output = Doc;

    fn add(self, rhs: Self) -> (d: Self::Output)
        ensures
            d@ == concat(self@, rhs@),
    {
        Doc::seq(self, rhs)
    }
}

/// `+` on references copies both documents: no specification value equals
/// the copy, so the sum is described by the `ensures` of `add` alone.
impl<'a> AddSpecImpl for &'a Doc {
    open spec fn obeys_add_spec() -> bool {
        false
    }

    open spec fn add_req(self, rhs: &'a Doc) -> bool {
        true
    }

    open spec fn add_spec(self, rhs: &'a Doc) -> Doc {
        Doc::Nil
    }
}

impl core::ops::BitOr for Doc {
    type Output = Doc;

    fn bitor(self, rhs: Self) -> (d: Self::Output)
        ensures
            d@ == choice(self@, rhs@),
    {
        Doc::Or(Box::new(self), Box::new(rhs))
    }
}

impl BitOrSpecImpl for Doc {
    open spec fn obeys_bitor_spec() -> bool {
        true
    }

    open spec fn bitor_req(self, rhs: Doc) -> bool {
        true
    }

    open spec fn bitor_spec(self, rhs: Doc) -> Doc {
        Doc::Or(Box::new(self), Box::new(rhs))
    }
}

impl<'a> core::ops::BitOr for &'a Doc {
    type Output = Doc;

    fn bitor(self, rhs: Self) -> (d: Self::Output)
        ensures
            d@ == choice(self@, rhs@),
    {
        Doc::or(self, rhs)
    }
}

/// `|` on references copies both documents: the choice is described by the
/// `ensures` of `bitor` alone.
impl<'a> BitOrSpecImpl for &'a Doc {
    open spec fn obeys_bitor_spec() -> bool {
        false
    }

    open spec fn bitor_req(self, rhs: &'a Doc) -> bool {
        true
    }

    open spec fn bitor_spec(self, rhs: &'a Doc) -> Doc {
        Doc::Nil
    }
}


impl From<String> for Doc {
    fn from(value: String) -> (d: Self) {
        Doc::Text(value)
    }
}

impl FromSpecImpl<String> for Doc {
    open spec fn obeys_from_spec() -> bool {
        true
    }

    open spec fn from_spec(v: String) -> Doc {
        Doc::Text(v)
    }
}

impl<'a> From<&'a str> for Doc {
    fn from(value: &'a str) -> (d: Self)
        ensures
            d@ == DocV::Text(value@),
    {
        Doc::text(value)
    }
}

/// A document made from a `&str` owns a copy of the text: it is described by
/// the `ensures` of `from` alone.
impl<'a> FromSpecImpl<&'a str> for Doc {
    open spec fn obeys_from_spec() -> bool {
        false
    }

    open spec fn from_spec(v: &'a str) -> Doc {
        Doc::Nil
    }
}

} // verus!
