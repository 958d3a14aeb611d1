use vstd::prelude::*;

use crate::format::laws::{ftext, lemma_ftext_is_flat_text};
use crate::format::pretty::{flat_text, 
    all_valid, bracket_spec, concat, doc_bounded, doc_weight, docs_view, fill, fill_spec, is_whitespace,
    is_ws, law_bracket_valid, law_fill_valid, lemma_bounded_by_weight, lemma_bracket_weight,
    lemma_fill_weight, lemma_weights_concat, pretty_spec, valid, weights, Doc, DocV, Pretty,
};

verus! {

/// An attribute of an element: its name and its value.
pub struct Attr(pub String, pub String);

/// A small XML tree: elements with attributes and children, and texts.
pub enum XML {
    Elt(String, Vec<Attr>, Vec<XML>),
    Txt(String),
}

pub open spec fn attr_doc(a: Attr) -> DocV {
    DocV::Text(a.0@ + seq!['=', '"'] + a.1@ + seq!['"'])
}

pub open spec fn attr_docs(attrs: Seq<Attr>) -> Seq<DocV> {
    attrs.map_values(|a: Attr| attr_doc(a))
}

/// `<tag`, the attributes filled in a group, then `>` or `/>`.
pub open spec fn opening_spec(tag: Seq<char>, attrs: Seq<Attr>, self_closing: bool) -> DocV {
    let closer = if self_closing {
        DocV::Text(seq!['/', '>'])
    } else {
        DocV::Text(seq!['>'])
    };
    let closer = if attrs.len() != 0 {
        concat(bracket_spec(fill_spec(attr_docs(attrs)), Seq::empty(), Seq::empty()), closer)
    } else {
        closer
    };
    concat(concat(DocV::Text(seq!['<']), DocV::Text(tag)), closer)
}

pub open spec fn closing_spec(tag: Seq<char>) -> DocV {
    DocV::Text(seq!['<', '/'] + tag + seq!['>'])
}

/// The number of leading white-space characters.
pub open spec fn lead_ws(s: Seq<char>) -> nat
    decreases s.len(),
{
    if s.len() > 0 && is_ws(s[0]) {
        1 + lead_ws(s.drop_first())
    } else {
        0
    }
}

/// The number of trailing white-space characters.
pub open spec fn trail_ws(s: Seq<char>) -> nat
    decreases s.len(),
{
    if s.len() > 0 && is_ws(s.last()) {
        1 + trail_ws(s.drop_last())
    } else {
        0
    }
}

pub proof fn lemma_ws_bounds(s: Seq<char>)
    ensures
        lead_ws(s) <= s.len(),
        trail_ws(s) <= s.len(),
    decreases s.len(),
{
    if s.len() > 0 {
        lemma_ws_bounds(s.drop_first());
        lemma_ws_bounds(s.drop_last());
    }
}

/// The text without its leading and trailing white space: `str::trim`.
pub open spec fn trim_spec(s: Seq<char>) -> Seq<char> {
    let t = s.skip(lead_ws(s) as int);
    t.take(t.len() - trail_ws(t))
}

/// The number of characters before the first space (all of them if none).
pub open spec fn first_space(s: Seq<char>) -> nat
    decreases s.len(),
{
    if s.len() == 0 || s[0] == ' ' {
        0
    } else {
        1 + first_space(s.drop_first())
    }
}

pub proof fn lemma_first_space(s: Seq<char>)
    ensures
        first_space(s) <= s.len(),
        first_space(s) < s.len() ==> s[first_space(s) as int] == ' ',
        forall|k: int| 0 <= k < first_space(s) ==> s[k] != ' ',
    decreases s.len(),
{
    if s.len() > 0 && s[0] != ' ' {
        lemma_first_space(s.drop_first());
        assert forall|k: int| 0 <= k < first_space(s) implies s[k] != ' ' by {
            if k > 0 {
                assert(s[k] == s.drop_first()[k - 1]);
            }
        }
    }
}

/// The pieces of a text between single spaces: `str::split(" ")`.
pub open spec fn split_spaces(s: Seq<char>) -> Seq<Seq<char>>
    decreases s.len(),
{
    proof {
        lemma_first_space(s);
    }
    if first_space(s) == s.len() {
        seq![s]
    } else {
        seq![s.take(first_space(s) as int)] + split_spaces(s.skip(first_space(s) as int + 1))
    }
}

pub open spec fn texts(ws: Seq<Seq<char>>) -> Seq<DocV> {
    ws.map_values(|w: Seq<char>| DocV::Text(w))
}

/// The documents of an XML tree: one per element, one per word of a text.
pub open spec fn xml_docs(x: XML) -> Seq<DocV>
    decreases x,
{
    match x {
        XML::Elt(tag, attrs, xmls) => {
            if xmls.len() == 0 {
                seq![opening_spec(tag@, attrs@, true)]
            } else {
                seq![
                    concat(
                        concat(
                            opening_spec(tag@, attrs@, false),
                            bracket_spec(fill_spec(children_docs(xmls@)), Seq::empty(), Seq::empty()),
                        ),
                        closing_spec(tag@),
                    ),
                ]
            }
        },
        XML::Txt(data) => texts(split_spaces(trim_spec(data@))),
    }
}

/// The documents of a list of trees, one tree after the other.
pub open spec fn children_docs(xs: Seq<XML>) -> Seq<DocV>
    decreases xs,
{
    if xs.len() == 0 {
        Seq::empty()
    } else {
        children_docs(xs.drop_last()) + xml_docs(xs.last())
    }
}

/// Documents placed side by side.
pub open spec fn doc_fold(ds: Seq<DocV>) -> DocV
    decreases ds.len(),
{
    if ds.len() == 0 {
        DocV::Nil
    } else {
        let acc = doc_fold(ds.drop_last());
        match acc {
            DocV::Nil => ds.last(),
            _ => concat(acc, ds.last()),
        }
    }
}

pub open spec fn xml_doc(x: XML) -> DocV {
    doc_fold(xml_docs(x))
}


/// The text without leading and trailing white space, as `str::trim` gives it.
pub fn trim(s: &str) -> (r: &str)
    ensures
        r@ == trim_spec(s@),
{
    let n = s.unicode_len();
    let mut a: usize = 0;
    assert(s@.skip(0) =~= s@);
    while a < n && is_whitespace(s.get_char(a))
        invariant
            n == s@.len(),
            a <= n,
            lead_ws(s@) == a + lead_ws(s@.skip(a as int)),
        decreases n - a,
    {
        assert(s@.skip(a as int)[0] == s@[a as int]);
        assert(s@.skip(a as int).drop_first() =~= s@.skip(a + 1));
        a = a + 1;
    }
    proof {
        if a < n {
            assert(s@.skip(a as int)[0] == s@[a as int]);
        }
    }
    let ghost t = s@.skip(a as int);
    let mut b: usize = n;
    assert(t.take(t.len() as int) =~= t);
    while b > a && is_whitespace(s.get_char(b - 1))
        invariant
            n == s@.len(),
            a <= b <= n,
            t == s@.skip(a as int),
            trail_ws(t) == (n - b) + trail_ws(t.take(b - a)),
        decreases b,
    {
        assert(t.take(b - a).last() == s@[b - 1]);
        assert(t.take(b - a).drop_last() =~= t.take(b - 1 - a));
        b = b - 1;
    }
    proof {
        if b > a {
            assert(t.take(b - a).last() == s@[b - 1]);
        }
        assert(t.take(b - a) =~= s@.subrange(a as int, b as int));
    }
    s.substring_char(a, b)
}

/// The pieces of a text between single spaces, as `str::split(" ")` gives
/// them, each as a text document.
fn split_docs(s: &str) -> (ds: Vec<Doc>)
    ensures
        docs_view(ds@) == texts(split_spaces(s@)),
{
    let n = s.unicode_len();
    let mut ds: Vec<Doc> = Vec::new();
    let mut start: usize = 0;
    let mut j: usize = 0;
    let ghost mut done: Seq<Seq<char>> = Seq::empty();
    assert(s@.skip(0) =~= s@);
    while j < n
        invariant
            n == s@.len(),
            start <= j <= n,
            forall|k: int| start <= k < j ==> s@[k] != ' ',
            docs_view(ds@) == texts(done),
            split_spaces(s@) == done + split_spaces(s@.skip(start as int)),
        decreases n - j,
    {
        if s.get_char(j) == ' ' {
            proof {
                let r = s@.skip(start as int);
                lemma_first_space(r);
                assert forall|k: int| 0 <= k < (j - start) implies r[k] != ' ' by {
                    assert(r[k] == s@[start + k]);
                }
                if first_space(r) < j - start {
                    assert(r[first_space(r) as int] == s@[start + first_space(r)]);
                }
                if first_space(r) > j - start {
                    assert(r[j - start] == s@[j as int]);
                }
                assert(first_space(r) == j - start);
                assert(r.take(first_space(r) as int) =~= s@.subrange(start as int, j as int));
                assert(r.skip(first_space(r) as int + 1) =~= s@.skip(j + 1));
                let nd = done.push(s@.subrange(start as int, j as int));
                assert(done + split_spaces(r) =~= nd + split_spaces(s@.skip(j + 1)));
                assert(texts(nd) =~= texts(done).push(DocV::Text(s@.subrange(start as int, j as int))));
                done = nd;
            }
            let piece = Doc::text(s.substring_char(start, j));
            proof {
                assert(docs_view(ds@.push(piece)) =~= docs_view(ds@).push(piece@));
            }
            ds.push(piece);
            start = j + 1;
        }
        j = j + 1;
    }
    proof {
        let r = s@.skip(start as int);
        lemma_first_space(r);
        if first_space(r) < r.len() {
            assert(r[first_space(r) as int] == s@[start + first_space(r)]);
        }
        assert(r =~= s@.subrange(start as int, n as int));
        let nd = done.push(r);
        assert(done + split_spaces(r) =~= nd);
        assert(texts(nd) =~= texts(done).push(DocV::Text(r)));
        done = nd;
    }
    let piece = Doc::text(s.substring_char(start, n));
    proof {
        assert(docs_view(ds@.push(piece)) =~= docs_view(ds@).push(piece@));
    }
    ds.push(piece);
    ds
}

impl Pretty for Attr {
    open spec fn doc_spec(&self) -> DocV {
        attr_doc(*self)
    }

    fn to_doc(&self) -> (d: Doc) {
        let mut s = self.0.clone();
        let eq = "=\"";
        let quote = "\"";
        proof {
            reveal_strlit("=\"");
            reveal_strlit("\"");
        }
        s.append(eq);
        s.append(self.1.as_str());
        s.append(quote);
        assert(s@ =~= self.0@ + seq!['=', '"'] + self.1@ + seq!['"']);
        Doc::Text(s)
    }
}

fn opening_tag(tag: &str, attrs: &Vec<Attr>, self_closing: bool) -> (d: Doc)
    ensures
        d@ == opening_spec(tag@, attrs@, self_closing),
{
    let slash_gt = "/>";
    let gt = ">";
    let lt = "<";
    let empty = "";
    proof {
        reveal_strlit("/>");
        reveal_strlit(">");
        reveal_strlit("<");
        reveal_strlit("");
        assert(slash_gt@ =~= seq!['/', '>']);
        assert(gt@ =~= seq!['>']);
        assert(lt@ =~= seq!['<']);
        assert(empty@ =~= Seq::<char>::empty());
    }
    let mut closer = if self_closing {
        Doc::text(slash_gt)
    } else {
        Doc::text(gt)
    };
    if attrs.len() != 0 {
        let mut docs: Vec<Doc> = Vec::new();
        let mut k: usize = 0;
        while k < attrs.len()
            invariant
                k <= attrs@.len(),
                docs_view(docs@) == attr_docs(attrs@.take(k as int)),
            decreases attrs@.len() - k,
        {
            let d = attrs[k].to_doc();
            proof {
                assert(docs_view(docs@.push(d)) =~= docs_view(docs@).push(d@));
                assert(attr_docs(attrs@.take(k + 1)) =~= attr_docs(attrs@.take(k as int)).push(
                    attr_doc(attrs@[k as int]),
                ));
            }
            docs.push(d);
            k = k + 1;
        }
        assert(attrs@.take(k as int) =~= attrs@);
        let filled = fill(docs.as_slice()).bracket(empty, empty);
        let ghost c0 = closer@;
        closer = Doc::Concat(Box::new(filled), Box::new(closer));
        assert(closer@ == concat(filled@, c0));
    }
    let head = Doc::Concat(Box::new(Doc::text(lt)), Box::new(Doc::text(tag)));
    assert(head@ == concat(DocV::Text(seq!['<']), DocV::Text(tag@)));
    let ghost cv = closer@;
    let d = Doc::Concat(Box::new(head), Box::new(closer));
    assert(d@ == concat(head@, cv));
    d
}

fn closing_tag(tag: &str) -> (d: Doc)
    ensures
        d@ == closing_spec(tag@),
{
    let open = "</";
    let close = ">";
    proof {
        reveal_strlit("</");
        reveal_strlit(">");
    }
    let mut s = String::from_str(open);
    s.append(tag);
    s.append(close);
    assert(s@ =~= seq!['<', '/'] + tag@ + seq!['>']);
    Doc::Text(s)
}

impl XML {
    /// The documents of the tree: one for an element, one per piece of a text.
    fn to_docs(&self) -> (ds: Vec<Doc>)
        ensures
            docs_view(ds@) == xml_docs(*self),
        decreases self,
    {
        match self {
            XML::Elt(tag, attrs, xmls) => {
                if xmls.len() == 0 {
                    let mut v: Vec<Doc> = Vec::new();
                    v.push(opening_tag(tag.as_str(), attrs, true));
                    assert(docs_view(v@) =~= seq![opening_spec(tag@, attrs@, true)]);
                    v
                } else {
                    let mut children: Vec<Doc> = Vec::new();
                    let mut k: usize = 0;
                    while k < xmls.len()
                        invariant
                            k <= xmls@.len(),
                            self is Elt,
                            self->Elt_2 == *xmls,
                            docs_view(children@) == children_docs(xmls@.take(k as int)),
                        decreases xmls@.len() - k,
                    {
                        proof {
                            assert(decreases_to!(*xmls => xmls@));
                            assert(decreases_to!(xmls@ => xmls@[k as int]));
                            assert(decreases_to!(*self => self->Elt_2));
                        }
                        let mut sub = xmls[k].to_docs();
                        proof {
                            assert(xmls@.take(k + 1).drop_last() =~= xmls@.take(k as int));
                            assert(docs_view(children@ + sub@) =~= docs_view(children@) + docs_view(sub@));
                        }
                        children.append(&mut sub);
                        k = k + 1;
                    }
                    assert(xmls@.take(k as int) =~= xmls@);
                    let empty = "";
                    proof {
                        reveal_strlit("");
                        assert(empty@ =~= Seq::<char>::empty());
                    }
                    let body = fill(children.as_slice()).bracket(empty, empty);
                    let d = Doc::Concat(
                        Box::new(Doc::Concat(Box::new(opening_tag(tag.as_str(), attrs, false)), Box::new(body))),
                        Box::new(closing_tag(tag.as_str())),
                    );
                    assert(d@ == concat(
                        concat(
                            opening_spec(tag@, attrs@, false),
                            bracket_spec(fill_spec(children_docs(xmls@)), Seq::empty(), Seq::empty()),
                        ),
                        closing_spec(tag@),
                    )) by {
                        reveal_with_fuel(Doc::model, 3);
                    }
                    let mut v: Vec<Doc> = Vec::new();
                    v.push(d);
                    assert(docs_view(v@) =~= seq![d@]);
                    v
                }
            },
            XML::Txt(data) => split_docs(trim(data.as_str())),
        }
    }
}

impl Pretty for XML {
    open spec fn doc_spec(&self) -> DocV {
        xml_doc(*self)
    }

    fn to_doc(&self) -> (d: Doc) {
        let docs = self.to_docs();
        let ghost all = docs_view(docs@);
        let mut acc = Doc::Nil;
        let mut k: usize = 0;
        while k < docs.len()
            invariant
                k <= docs@.len(),
                all == docs_view(docs@),
                acc@ == doc_fold(all.take(k as int)),
            decreases docs@.len() - k,
        {
            let val = docs[k].copy();
            proof {
                assert(all.take(k + 1).drop_last() =~= all.take(k as int));
                reveal_with_fuel(Doc::model, 2);
            }
            acc = match acc {
                Doc::Nil => val,
                acc => Doc::Concat(Box::new(acc), Box::new(val)),
            };
            k = k + 1;
        }
        assert(all.take(k as int) =~= all);
        acc
    }
}


pub open spec fn is_txt(x: XML, t: Seq<char>) -> bool {
    x matches XML::Txt(d) && d@ == t
}

pub open spec fn is_attr(a: Attr, name: Seq<char>, value: Seq<char>) -> bool {
    a.0@ == name && a.1@ == value
}

/// The sample paragraph of Wadler's paper: a `p` element with three
/// attributes, texts, an `em` element and a link.
pub open spec fn sample_xml(x: XML) -> bool {
    &&& x matches XML::Elt(tag, attrs, xs)
    &&& tag@ == "p"@
    &&& attrs@.len() == 3
    &&& is_attr(attrs@[0], "color"@, "red"@)
    &&& is_attr(attrs@[1], "font"@, "Times"@)
    &&& is_attr(attrs@[2], "size"@, "10"@)
    &&& xs@.len() == 6
    &&& is_txt(xs@[0], "Here is some"@)
    &&& xs@[1] matches XML::Elt(t1, a1, c1)
    &&& t1@ == "em"@ && a1@.len() == 0 && c1@.len() == 1 && is_txt(c1@[0], "emphasized"@)
    &&& is_txt(xs@[2], "text."@)
    &&& is_txt(xs@[3], "Here is a"@)
    &&& xs@[4] matches XML::Elt(t4, a4, c4)
    &&& t4@ == "a"@ && a4@.len() == 1 && is_attr(a4@[0], "href"@, "http://www.eg.com/"@)
    &&& c4@.len() == 1 && is_txt(c4@[0], "link"@)
    &&& is_txt(xs@[5], "elsewhere."@)
}

fn txt(s: &str) -> (x: XML)
    ensures
        is_txt(x, s@),
{
    XML::Txt(String::from_str(s))
}

fn attr(name: &str, value: &str) -> (a: Attr)
    ensures
        is_attr(a, name@, value@),
{
    Attr(String::from_str(name), String::from_str(value))
}

fn get_xml() -> (x: XML)
    ensures
        sample_xml(x),
{
    let mut attrs: Vec<Attr> = Vec::new();
    attrs.push(attr("color", "red"));
    attrs.push(attr("font", "Times"));
    attrs.push(attr("size", "10"));
    let mut em_children: Vec<XML> = Vec::new();
    em_children.push(txt("emphasized"));
    let mut link_attrs: Vec<Attr> = Vec::new();
    link_attrs.push(attr("href", "http://www.eg.com/"));
    let mut link_children: Vec<XML> = Vec::new();
    link_children.push(txt("link"));
    let mut children: Vec<XML> = Vec::new();
    children.push(txt("Here is some"));
    children.push(XML::Elt(String::from_str("em"), Vec::new(), em_children));
    children.push(txt("text."));
    children.push(txt("Here is a"));
    children.push(XML::Elt(String::from_str("a"), link_attrs, link_children));
    children.push(txt("elsewhere."));
    XML::Elt(String::from_str("p"), attrs, children)
}

/// The sample paragraph laid out for a width of 30 characters.
pub fn test() -> (s: String)
    ensures
        exists|x: XML| sample_xml(x) && s@ == pretty_spec(xml_doc(x), 30),
{
    let x = get_xml();
    proof {
        lemma_sample_bounded(x);
    }
    x.pretty(30)
}


proof fn lemma_opening_valid(tag: Seq<char>, attrs: Seq<Attr>, self_closing: bool)
    ensures
        valid(opening_spec(tag, attrs, self_closing)),
{
    let ds = attr_docs(attrs);
    assert(all_valid(ds)) by {
        assert forall|k: int| 0 <= k < ds.len() implies valid(#[trigger] ds[k]) by {
            assert(ds[k] == attr_doc(attrs[k]));
        }
    }
    law_fill_valid(ds);
    law_bracket_valid(fill_spec(ds), Seq::empty(), Seq::empty());
    assert(valid(DocV::Text(seq!['<'])));
    assert(valid(DocV::Text(tag)));
    assert(valid(DocV::Text(seq!['/', '>'])));
    assert(valid(DocV::Text(seq!['>'])));
    let closer = if self_closing {
        DocV::Text(seq!['/', '>'])
    } else {
        DocV::Text(seq!['>'])
    };
    assert(valid(closer));
    let br = bracket_spec(fill_spec(ds), Seq::empty(), Seq::empty());
    assert(valid(concat(br, closer)));
    let head = concat(DocV::Text(seq!['<']), DocV::Text(tag));
    assert(valid(head));
    assert(valid(concat(head, closer)));
    assert(valid(concat(head, concat(br, closer))));
}

proof fn lemma_xml_docs_valid(x: XML)
    ensures
        all_valid(xml_docs(x)),
    decreases x,
{
    match x {
        XML::Elt(tag, attrs, xmls) => {
            lemma_opening_valid(tag@, attrs@, true);
            lemma_opening_valid(tag@, attrs@, false);
            if xmls.len() != 0 {
                lemma_children_docs_valid(xmls@);
                law_fill_valid(children_docs(xmls@));
                law_bracket_valid(fill_spec(children_docs(xmls@)), Seq::empty(), Seq::empty());
                assert(valid(closing_spec(tag@)));
                let o = opening_spec(tag@, attrs@, false);
                let b = bracket_spec(fill_spec(children_docs(xmls@)), Seq::empty(), Seq::empty());
                assert(valid(concat(o, b)));
                assert(valid(concat(concat(o, b), closing_spec(tag@))));
            }
            let ds = xml_docs(x);
            assert(valid(ds[0]));
        },
        XML::Txt(data) => {
            let ds = xml_docs(x);
            assert forall|k: int| 0 <= k < ds.len() implies valid(#[trigger] ds[k]) by {
                assert(ds[k] == DocV::Text(split_spaces(trim_spec(data@))[k]));
            }
        },
    }
}

proof fn lemma_children_docs_valid(xs: Seq<XML>)
    ensures
        all_valid(children_docs(xs)),
    decreases xs,
{
    if xs.len() > 0 {
        lemma_children_docs_valid(xs.drop_last());
        lemma_xml_docs_valid(xs.last());
        let a = children_docs(xs.drop_last());
        let b = xml_docs(xs.last());
        assert forall|k: int| 0 <= k < (a + b).len() implies valid(#[trigger] (a + b)[k]) by {
            if k < a.len() {
                assert((a + b)[k] == a[k]);
            } else {
                assert((a + b)[k] == b[k - a.len()]);
            }
        }
    }
}

proof fn lemma_doc_fold_valid(ds: Seq<DocV>)
    requires
        all_valid(ds),
    ensures
        valid(doc_fold(ds)),
    decreases ds.len(),
{
    if ds.len() > 0 {
        assert(valid(ds[ds.len() - 1]));
        assert(all_valid(ds.drop_last())) by {
            assert forall|k: int| 0 <= k < ds.drop_last().len() implies valid(#[trigger] ds.drop_last()[k]) by {
                assert(ds.drop_last()[k] == ds[k]);
            }
        }
        lemma_doc_fold_valid(ds.drop_last());
    }
}

/// The document of an XML tree is valid: in each of its choices both
/// alternatives have the same flat form.
pub proof fn law_xml_valid(x: XML)
    ensures
        valid(xml_doc(x)),
{
    lemma_xml_docs_valid(x);
    lemma_doc_fold_valid(xml_docs(x));
}


/// One more than the characters of each attribute, with its `="` and `"`.
pub open spec fn attrs_weight(attrs: Seq<Attr>) -> nat
    decreases attrs.len(),
{
    if attrs.len() == 0 {
        0
    } else {
        attrs_weight(attrs.drop_last()) + attrs.last().0@.len() + attrs.last().1@.len() + 4
    }
}

/// A bound on the weight of the documents of a tree and on their number.
pub open spec fn xml_bound(x: XML) -> nat
    decreases x,
{
    match x {
        XML::Txt(d) => 2 * d@.len() + 1,
        XML::Elt(t, attrs, xs) => 2 * t@.len() + attrs_weight(attrs@) + children_bound(xs@) + 15,
    }
}

pub open spec fn children_bound(xs: Seq<XML>) -> nat
    decreases xs,
{
    if xs.len() == 0 {
        0
    } else {
        children_bound(xs.drop_last()) + xml_bound(xs.last())
    }
}

proof fn lemma_texts_concat(a: Seq<Seq<char>>, b: Seq<Seq<char>>)
    ensures
        texts(a + b) == texts(a) + texts(b),
{
    assert(texts(a + b) =~= texts(a) + texts(b));
}

proof fn lemma_split_weight(t: Seq<char>)
    ensures
        weights(texts(split_spaces(t))) + split_spaces(t).len() <= 2 * t.len() + 1,
    decreases t.len(),
{
    lemma_first_space(t);
    let fs = first_space(t);
    if fs == t.len() {
        assert(split_spaces(t) == seq![t]);
        assert(texts(seq![t]) =~= seq![DocV::Text(t)]);
        assert(seq![DocV::Text(t)].drop_last() =~= Seq::<DocV>::empty());
        assert(doc_weight(DocV::Text(t)) == t.len());
        assert(weights(seq![DocV::Text(t)]) == weights(Seq::<DocV>::empty()) + doc_weight(DocV::Text(t)));
    } else {
        let rest = t.skip(fs as int + 1);
        lemma_split_weight(rest);
        let w = t.take(fs as int);
        let head = seq![w];
        assert(split_spaces(t) == head + split_spaces(rest));
        lemma_texts_concat(head, split_spaces(rest));
        assert(texts(head) =~= seq![DocV::Text(w)]);
        assert(seq![DocV::Text(w)].drop_last() =~= Seq::<DocV>::empty());
        assert(doc_weight(DocV::Text(w)) == fs);
        assert(weights(seq![DocV::Text(w)]) == weights(Seq::<DocV>::empty()) + doc_weight(DocV::Text(w)));
        lemma_weights_concat(texts(head), texts(split_spaces(rest)));
    }
}

proof fn lemma_trim_len(s: Seq<char>)
    ensures
        trim_spec(s).len() <= s.len(),
{
    lemma_ws_bounds(s);
    lemma_ws_bounds(s.skip(lead_ws(s) as int));
}

proof fn lemma_attr_docs_weight(attrs: Seq<Attr>)
    ensures
        weights(attr_docs(attrs)) + attrs.len() == attrs_weight(attrs),
    decreases attrs.len(),
{
    if attrs.len() > 0 {
        lemma_attr_docs_weight(attrs.drop_last());
        assert(attr_docs(attrs).drop_last() =~= attr_docs(attrs.drop_last()));
    }
}

proof fn lemma_opening_weight(tag: Seq<char>, attrs: Seq<Attr>, self_closing: bool)
    ensures
        doc_weight(opening_spec(tag, attrs, self_closing)) <= tag.len() + attrs_weight(attrs) + 7,
{
    let ds = attr_docs(attrs);
    lemma_attr_docs_weight(attrs);
    lemma_fill_weight(ds);
    lemma_bracket_weight(fill_spec(ds), Seq::empty(), Seq::empty());
    let closer = if self_closing {
        DocV::Text(seq!['/', '>'])
    } else {
        DocV::Text(seq!['>'])
    };
    assert(doc_weight(DocV::Text(seq!['/', '>'])) == 2);
    assert(doc_weight(DocV::Text(seq!['>'])) == 1);
    assert(doc_weight(closer) <= 2);
    let head = concat(DocV::Text(seq!['<']), DocV::Text(tag));
    assert(doc_weight(DocV::Text(seq!['<'])) == 1);
    assert(doc_weight(DocV::Text(tag)) == tag.len());
    assert(doc_weight(head) == 1 + tag.len());
    if attrs.len() != 0 {
        let b = bracket_spec(fill_spec(ds), Seq::empty(), Seq::empty());
        assert(doc_weight(concat(b, closer)) == doc_weight(b) + doc_weight(closer));
        assert(doc_weight(concat(head, concat(b, closer))) == doc_weight(head) + doc_weight(concat(b, closer)));
    } else {
        assert(doc_weight(concat(head, closer)) == doc_weight(head) + doc_weight(closer));
    }
}

proof fn lemma_xml_docs_weight(x: XML)
    ensures
        weights(xml_docs(x)) + xml_docs(x).len() <= xml_bound(x),
    decreases x,
{
    match x {
        XML::Elt(tag, attrs, xmls) => {
            let ds = xml_docs(x);
            assert(ds.drop_last() =~= Seq::<DocV>::empty());
            assert(weights(ds) == weights(Seq::<DocV>::empty()) + doc_weight(ds[0]));
            if xmls.len() == 0 {
                lemma_opening_weight(tag@, attrs@, true);
            } else {
                lemma_opening_weight(tag@, attrs@, false);
                let ch = children_docs(xmls@);
                lemma_children_docs_weight(xmls@);
                lemma_fill_weight(ch);
                lemma_bracket_weight(fill_spec(ch), Seq::empty(), Seq::empty());
                assert(doc_weight(closing_spec(tag@)) == tag@.len() + 3);
                let o = opening_spec(tag@, attrs@, false);
                let b = bracket_spec(fill_spec(ch), Seq::empty(), Seq::empty());
                assert(doc_weight(concat(o, b)) == doc_weight(o) + doc_weight(b));
                assert(doc_weight(concat(concat(o, b), closing_spec(tag@))) == doc_weight(concat(o, b))
                    + doc_weight(closing_spec(tag@)));
            }
        },
        XML::Txt(data) => {
            lemma_trim_len(data@);
            lemma_split_weight(trim_spec(data@));
        },
    }
}

proof fn lemma_children_docs_weight(xs: Seq<XML>)
    ensures
        weights(children_docs(xs)) + children_docs(xs).len() <= children_bound(xs),
    decreases xs,
{
    if xs.len() > 0 {
        lemma_children_docs_weight(xs.drop_last());
        lemma_xml_docs_weight(xs.last());
        lemma_weights_concat(children_docs(xs.drop_last()), xml_docs(xs.last()));
    }
}

proof fn lemma_doc_fold_weight(ds: Seq<DocV>)
    ensures
        doc_weight(doc_fold(ds)) <= weights(ds),
    decreases ds.len(),
{
    if ds.len() > 0 {
        lemma_doc_fold_weight(ds.drop_last());
    }
}

/// A tree whose bound is at most half the largest `usize` can be laid out.
pub proof fn lemma_xml_bounded(x: XML)
    requires
        2 * xml_bound(x) <= usize::MAX,
    ensures
        doc_bounded(xml_doc(x)),
{
    lemma_xml_docs_weight(x);
    lemma_doc_fold_weight(xml_docs(x));
    lemma_bounded_by_weight(xml_doc(x));
}


proof fn lemma_children_bound_le(xs: Seq<XML>, k: nat)
    requires
        forall|i: int| 0 <= i < xs.len() ==> xml_bound(#[trigger] xs[i]) <= k,
    ensures
        children_bound(xs) <= k * xs.len(),
    decreases xs.len(),
{
    if xs.len() > 0 {
        assert forall|i: int| 0 <= i < xs.drop_last().len() implies xml_bound(#[trigger] xs.drop_last()[i]) <= k by {
            assert(xs.drop_last()[i] == xs[i]);
        }
        lemma_children_bound_le(xs.drop_last(), k);
        assert(xml_bound(xs[xs.len() - 1]) <= k);
        assert(k * (xs.len() - 1) + k == k * xs.len()) by (nonlinear_arith);
    }
}

proof fn lemma_attrs_weight_le(attrs: Seq<Attr>, k: nat)
    requires
        forall|i: int| 0 <= i < attrs.len() ==> #[trigger] attrs[i].0@.len() + attrs[i].1@.len() + 4 <= k,
    ensures
        attrs_weight(attrs) <= k * attrs.len(),
    decreases attrs.len(),
{
    if attrs.len() > 0 {
        assert forall|i: int| 0 <= i < attrs.drop_last().len() implies #[trigger] attrs.drop_last()[i].0@.len()
            + attrs.drop_last()[i].1@.len() + 4 <= k by {
            assert(attrs.drop_last()[i] == attrs[i]);
        }
        lemma_attrs_weight_le(attrs.drop_last(), k);
        assert(attrs[attrs.len() - 1].0@.len() + attrs[attrs.len() - 1].1@.len() + 4 <= k);
        assert(k * (attrs.len() - 1) + k == k * attrs.len()) by (nonlinear_arith);
    }
}

/// The sample paragraph can be laid out without overflow.
proof fn lemma_sample_bounded(x: XML)
    requires
        sample_xml(x),
    ensures
        doc_bounded(xml_doc(x)),
{
    reveal_strlit("p");
    reveal_strlit("color");
    reveal_strlit("red");
    reveal_strlit("font");
    reveal_strlit("Times");
    reveal_strlit("size");
    reveal_strlit("10");
    reveal_strlit("Here is some");
    reveal_strlit("em");
    reveal_strlit("emphasized");
    reveal_strlit("text.");
    reveal_strlit("Here is a");
    reveal_strlit("a");
    reveal_strlit("href");
    reveal_strlit("http://www.eg.com/");
    reveal_strlit("link");
    reveal_strlit("elsewhere.");
    if let XML::Elt(tag, attrs, xs) = x {
        lemma_attrs_weight_le(attrs@, 14);
        if let XML::Elt(t1, a1, c1) = xs@[1] {
            lemma_children_bound_le(c1@, 21);
            lemma_attrs_weight_le(a1@, 0);
        }
        if let XML::Elt(t4, a4, c4) = xs@[4] {
            lemma_children_bound_le(c4@, 9);
            lemma_attrs_weight_le(a4@, 26);
        }
        assert forall|i: int| 0 <= i < xs@.len() implies xml_bound(#[trigger] xs@[i]) <= 60 by {
        }
        lemma_children_bound_le(xs@, 60);
        assert(xml_bound(x) <= 500);
    }
    lemma_xml_bounded(x);
}

/// The flat text of an element starts with `<` and its tag. An element
/// without children closes itself, whatever its attributes: its text ends
/// with `/>`. One with children ends with its closing tag `</tag>`.
pub proof fn law_element_ends(x: XML)
    ensures
        x matches XML::Elt(tag, attrs, kids) ==> {
            let t = flat_text(xml_doc(x));
            let n = tag@.len() + 1;
            let close = seq!['<', '/'] + tag@ + seq!['>'];
            &&& t.len() >= n && t.subrange(0, n as int) == seq!['<'] + tag@
            &&& kids@.len() == 0 ==> t.len() >= 2 && t.subrange(t.len() - 2, t.len() as int) == seq!['/', '>']
            &&& kids@.len() > 0 ==> t.len() >= close.len() && t.subrange(t.len() - close.len(), t.len() as int)
                == close
        },
{
    if let XML::Elt(tag, attrs, kids) = x {
        let ds = xml_docs(x);
        assert(ds.len() == 1);
        assert(ds.drop_last() =~= Seq::<DocV>::empty());
        assert(doc_fold(ds.drop_last()) == DocV::Nil);
        assert(xml_doc(x) == ds[0]);
        lemma_ftext_is_flat_text(ds[0]);
        let t = ftext(ds[0]);
        let head = seq!['<'] + tag@;
        assert(ftext(DocV::Text(seq!['<'])) == seq!['<']);
        assert(ftext(DocV::Text(tag@)) == tag@);
        assert(ftext(concat(DocV::Text(seq!['<']), DocV::Text(tag@))) == head);
        let close = seq!['<', '/'] + tag@ + seq!['>'];
        if kids@.len() == 0 {
            let op = opening_spec(tag@, attrs@, true);
            let slash = DocV::Text(seq!['/', '>']);
            assert(ftext(slash) == seq!['/', '>']);
            let rest = if attrs@.len() != 0 {
                concat(bracket_spec(fill_spec(attr_docs(attrs@)), Seq::empty(), Seq::empty()), slash)
            } else {
                slash
            };
            let rt = ftext(rest);
            assert(op == concat(concat(DocV::Text(seq!['<']), DocV::Text(tag@)), rest));
            assert(t == head + rt);
            assert(rt.len() >= 2 && rt.subrange(rt.len() - 2, rt.len() as int) =~= seq!['/', '>']);
            assert(t.subrange(0, head.len() as int) =~= head);
            assert(t.subrange(t.len() - 2, t.len() as int) =~= rt.subrange(rt.len() - 2, rt.len() as int));
        } else {
            let op = opening_spec(tag@, attrs@, false);
            let gt = DocV::Text(seq!['>']);
            assert(ftext(gt) == seq!['>']);
            let rest = if attrs@.len() != 0 {
                concat(bracket_spec(fill_spec(attr_docs(attrs@)), Seq::empty(), Seq::empty()), gt)
            } else {
                gt
            };
            assert(op == concat(concat(DocV::Text(seq!['<']), DocV::Text(tag@)), rest));
            let ot = ftext(op);
            assert(ot == head + ftext(rest));
            let body = bracket_spec(fill_spec(children_docs(kids@)), Seq::empty(), Seq::empty());
            let d = concat(concat(op, body), closing_spec(tag@));
            assert(ds[0] == d);
            assert(ftext(closing_spec(tag@)) == close);
            assert(ftext(concat(op, body)) == ot + ftext(body));
            assert(t == ftext(concat(op, body)) + close);
            assert(t == ot + ftext(body) + close);
            assert(t.subrange(0, head.len() as int) =~= head);
            assert(t.subrange(t.len() - close.len(), t.len() as int) =~= close);
        }
    }
}

} // verus!
