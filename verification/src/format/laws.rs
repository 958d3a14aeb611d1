//! Laws of the layout algorithm: what the best layout keeps of a document,
//! and how it depends on the line width.
use vstd::prelude::*;

use crate::format::pretty::{
    be_spec, best_spec, fill_from_spec, fill_spec, fill_with_head_spec, flat, flat_text, is_flat,
    joined, leaves, lemma_flat_is_flat, lemma_stack_size_push, stack_size, valid, DocV, NormV,
};

verus! {

/// The text of the flat layout of a document: line breaks are spaces and
/// every choice takes its first alternative.
pub open spec fn ftext(d: DocV) -> Seq<char>
    decreases d,
{
    match d {
        DocV::Nil => Seq::empty(),
        DocV::Concat(a, b) => ftext(*a) + ftext(*b),
        DocV::Nest(_, c) => ftext(*c),
        DocV::Text(s) => s,
        DocV::Line => seq![' '],
        DocV::Or(a, _) => ftext(*a),
    }
}

/// The text of a layout with each line break and its indentation replaced
/// by a single space.
pub open spec fn unbroken(n: NormV) -> Seq<char>
    decreases n,
{
    match n {
        NormV::Nil => Seq::empty(),
        NormV::Text(s, rest) => s + unbroken(*rest),
        NormV::Line(_, rest) => seq![' '] + unbroken(*rest),
    }
}

/// The flat texts of a layout stack, its last element first.
pub open spec fn stack_ftext(ls: Seq<(nat, DocV)>) -> Seq<char>
    decreases ls.len(),
{
    if ls.len() == 0 {
        Seq::empty()
    } else {
        ftext(ls.last().1) + stack_ftext(ls.drop_last())
    }
}

pub open spec fn stack_valid(ls: Seq<(nat, DocV)>) -> bool {
    forall|k: int| 0 <= k < ls.len() ==> valid(#[trigger] ls[k].1)
}

proof fn lemma_ftext_flat(d: DocV)
    ensures
        ftext(flat(d)) == ftext(d),
    decreases d,
{
    match d {
        DocV::Concat(a, b) => {
            lemma_ftext_flat(*a);
            lemma_ftext_flat(*b);
        },
        DocV::Nest(_, c) => lemma_ftext_flat(*c),
        DocV::Or(a, _) => lemma_ftext_flat(*a),
        _ => {},
    }
}

proof fn lemma_joined_append(x: Seq<Seq<char>>, y: Seq<Seq<char>>)
    ensures
        joined(x + y) == joined(x) + joined(y),
    decreases x.len(),
{
    if x.len() == 0 {
        assert(x + y =~= y);
    } else {
        assert((x + y).drop_first() =~= x.drop_first() + y);
        lemma_joined_append(x.drop_first(), y);
        assert(joined(x) + joined(y) =~= x[0] + (joined(x.drop_first()) + joined(y)));
    }
}

proof fn lemma_ftext_leaves(d: DocV)
    requires
        is_flat(d),
    ensures
        joined(leaves(d)) == ftext(d),
    decreases d,
{
    match d {
        DocV::Concat(a, b) => {
            assert(is_flat(*a) && is_flat(*b));
            lemma_ftext_leaves(*a);
            lemma_ftext_leaves(*b);
            lemma_joined_append(leaves(*a), leaves(*b));
            assert(leaves(d) == leaves(*a) + leaves(*b));
            assert(ftext(d) == ftext(*a) + ftext(*b));
        },
        DocV::Text(s) => {
            assert(seq![s].drop_first() =~= Seq::<Seq<char>>::empty());
            assert(joined(Seq::<Seq<char>>::empty()) == Seq::<char>::empty());
            assert(s + Seq::<char>::empty() =~= s);
            assert(joined(seq![s]) == s + joined(seq![s].drop_first()));
        },
        DocV::Nil => {
            assert(joined(Seq::<Seq<char>>::empty()) == Seq::<char>::empty());
        },
        _ => {},
    }
}

/// `ftext` is the text of the flat layout.
pub proof fn lemma_ftext_is_flat_text(d: DocV)
    ensures
        ftext(d) == flat_text(d),
{
    lemma_flat_is_flat(d);
    lemma_ftext_leaves(flat(d));
    lemma_ftext_flat(d);
}

proof fn lemma_be_unbroken(width: nat, cur: nat, ls: Seq<(nat, DocV)>)
    requires
        stack_valid(ls),
    ensures
        unbroken(be_spec(width, cur, ls)) == stack_ftext(ls),
    decreases stack_size(ls),
{
    if ls.len() > 0 {
        let i = ls.last().0;
        let rest = ls.drop_last();
        assert(ls =~= rest.push(ls.last()));
        lemma_stack_size_push(rest, ls.last());
        assert(valid(ls[ls.len() - 1].1));
        assert(stack_valid(rest)) by {
            assert forall|k: int| 0 <= k < rest.len() implies valid(#[trigger] rest[k].1) by {
                assert(rest[k] == ls[k]);
            }
        }
        match ls.last().1 {
            DocV::Nil => {
                lemma_be_unbroken(width, cur, rest);
                assert(stack_ftext(ls) =~= stack_ftext(rest));
            },
            DocV::Concat(a, b) => {
                let l2 = rest.push((i, *b)).push((i, *a));
                lemma_stack_size_push(rest, (i, *b));
                lemma_stack_size_push(rest.push((i, *b)), (i, *a));
                assert(stack_valid(l2)) by {
                    assert forall|k: int| 0 <= k < l2.len() implies valid(#[trigger] l2[k].1) by {
                        if k < rest.len() {
                            assert(l2[k] == rest[k]);
                        }
                    }
                }
                lemma_be_unbroken(width, cur, l2);
                assert(l2.drop_last() =~= rest.push((i, *b)));
                assert(rest.push((i, *b)).drop_last() =~= rest);
                assert(stack_ftext(l2) == ftext(*a) + stack_ftext(rest.push((i, *b))));
                assert(stack_ftext(rest.push((i, *b))) == ftext(*b) + stack_ftext(rest));
                assert(stack_ftext(ls) == ftext(ls.last().1) + stack_ftext(rest));
                assert(stack_ftext(l2) =~= stack_ftext(ls));
            },
            DocV::Nest(k, c) => {
                let l2 = rest.push((i + k, *c));
                lemma_stack_size_push(rest, (i + k, *c));
                assert(stack_valid(l2)) by {
                    assert forall|m: int| 0 <= m < l2.len() implies valid(#[trigger] l2[m].1) by {
                        if m < rest.len() {
                            assert(l2[m] == rest[m]);
                        }
                    }
                }
                lemma_be_unbroken(width, cur, l2);
                assert(l2.drop_last() =~= rest);
            },
            DocV::Text(s) => {
                lemma_be_unbroken(width, cur + s.len(), rest);
            },
            DocV::Line => {
                lemma_be_unbroken(width, i, rest);
            },
            DocV::Or(a, b) => {
                let la = rest.push((i, *a));
                let lb = rest.push((i, *b));
                lemma_stack_size_push(rest, (i, *a));
                lemma_stack_size_push(rest, (i, *b));
                assert(stack_valid(la)) by {
                    assert forall|m: int| 0 <= m < la.len() implies valid(#[trigger] la[m].1) by {
                        if m < rest.len() {
                            assert(la[m] == rest[m]);
                        }
                    }
                }
                assert(stack_valid(lb)) by {
                    assert forall|m: int| 0 <= m < lb.len() implies valid(#[trigger] lb[m].1) by {
                        if m < rest.len() {
                            assert(lb[m] == rest[m]);
                        }
                    }
                }
                lemma_be_unbroken(width, cur, la);
                lemma_be_unbroken(width, cur, lb);
                assert(la.drop_last() =~= rest);
                assert(lb.drop_last() =~= rest);
                lemma_ftext_flat(*a);
                lemma_ftext_flat(*b);
            },
        }
    }
}

/// The best layout only decides where lines break: with each line break
/// and its indentation read as one space, it is the flat text of the
/// document, at every width (for documents whose choices agree when flat).
pub proof fn law_layout_keeps_text(d: DocV, width: nat)
    requires
        valid(d),
    ensures
        unbroken(best_spec(d, width)) == flat_text(d),
{
    let ls = seq![(0nat, d)];
    assert(stack_valid(ls));
    lemma_be_unbroken(width, 0, ls);
    assert(ls.drop_last() =~= Seq::<(nat, DocV)>::empty());
    assert(ls.last() == (0nat, d));
    assert(stack_ftext(ls.drop_last()) == Seq::<char>::empty());
    assert(stack_ftext(ls) == ftext(d) + Seq::<char>::empty());
    assert(stack_ftext(ls) =~= ftext(d));
    lemma_ftext_is_flat_text(d);
}

/// The texts of documents joined by single spaces.
pub open spec fn spaced(xs: Seq<DocV>) -> Seq<char>
    decreases xs.len(),
{
    if xs.len() == 0 {
        Seq::empty()
    } else if xs.len() == 1 {
        ftext(xs[0])
    } else {
        ftext(xs[0]) + seq![' '] + spaced(xs.skip(1))
    }
}

proof fn lemma_fill_with_head_text(head: DocV, rest: Seq<DocV>)
    ensures
        ftext(fill_with_head_spec(head, rest)) == if rest.len() == 0 {
            ftext(head)
        } else {
            ftext(head) + seq![' '] + spaced(rest)
        },
    decreases rest.len(),
{
    if rest.len() > 0 {
        let y = rest[0];
        let more = rest.skip(1);
        lemma_fill_with_head_text(flat(y), more);
        lemma_ftext_flat(head);
        lemma_ftext_flat(y);
        assert(fill_with_head_spec(head, rest) == fill_from_spec(head, y, more));
        let w = fill_with_head_spec(flat(y), more);
        let first = DocV::Concat(
            Box::new(DocV::Concat(Box::new(flat(head)), Box::new(DocV::Text(seq![' '])))),
            Box::new(w),
        );
        assert(fill_from_spec(head, y, more) matches DocV::Or(a, _) && *a == first);
        assert(ftext(DocV::Text(seq![' '])) == seq![' ']);
        assert(ftext(DocV::Concat(Box::new(flat(head)), Box::new(DocV::Text(seq![' ']))))
            == ftext(flat(head)) + seq![' ']);
        assert(ftext(first) == ftext(flat(head)) + seq![' '] + ftext(w));
        if more.len() == 0 {
            assert(spaced(rest) == ftext(y));
        } else {
            assert(spaced(rest) == ftext(y) + seq![' '] + spaced(more));
        }
        assert(ftext(fill_with_head_spec(head, rest)) =~= ftext(head) + seq![' '] + spaced(rest));
    }
}

/// The flat text of a fill is the flat texts of its documents joined by
/// single spaces.
pub proof fn law_fill_text(xs: Seq<DocV>)
    ensures
        flat_text(fill_spec(xs)) == spaced(xs),
{
    lemma_ftext_is_flat_text(fill_spec(xs));
    if xs.len() >= 2 {
        assert(xs.skip(1).skip(1) =~= xs.skip(2));
        assert(xs.skip(1)[0] == xs[1]);
        assert(fill_spec(xs) == fill_with_head_spec(xs[0], xs.skip(1)));
        lemma_fill_with_head_text(xs[0], xs.skip(1));
    }
}

/// A document without choices.
pub open spec fn choice_free(d: DocV) -> bool
    decreases d,
{
    match d {
        DocV::Concat(a, b) => choice_free(*a) && choice_free(*b),
        DocV::Nest(_, c) => choice_free(*c),
        DocV::Or(_, _) => false,
        _ => true,
    }
}

pub open spec fn stack_choice_free(ls: Seq<(nat, DocV)>) -> bool {
    forall|k: int| 0 <= k < ls.len() ==> choice_free(#[trigger] ls[k].1)
}

proof fn lemma_be_choice_free(w1: nat, w2: nat, cur: nat, ls: Seq<(nat, DocV)>)
    requires
        stack_choice_free(ls),
    ensures
        be_spec(w1, cur, ls) == be_spec(w2, cur, ls),
    decreases stack_size(ls),
{
    if ls.len() > 0 {
        let i = ls.last().0;
        let rest = ls.drop_last();
        assert(ls =~= rest.push(ls.last()));
        lemma_stack_size_push(rest, ls.last());
        assert(choice_free(ls[ls.len() - 1].1));
        assert(stack_choice_free(rest)) by {
            assert forall|k: int| 0 <= k < rest.len() implies choice_free(#[trigger] rest[k].1) by {
                assert(rest[k] == ls[k]);
            }
        }
        match ls.last().1 {
            DocV::Nil => lemma_be_choice_free(w1, w2, cur, rest),
            DocV::Concat(a, b) => {
                let l2 = rest.push((i, *b)).push((i, *a));
                lemma_stack_size_push(rest, (i, *b));
                lemma_stack_size_push(rest.push((i, *b)), (i, *a));
                assert(stack_choice_free(l2)) by {
                    assert forall|k: int| 0 <= k < l2.len() implies choice_free(#[trigger] l2[k].1) by {
                        if k < rest.len() {
                            assert(l2[k] == rest[k]);
                        }
                    }
                }
                lemma_be_choice_free(w1, w2, cur, l2);
            },
            DocV::Nest(k, c) => {
                let l2 = rest.push((i + k, *c));
                lemma_stack_size_push(rest, (i + k, *c));
                assert(stack_choice_free(l2)) by {
                    assert forall|m: int| 0 <= m < l2.len() implies choice_free(#[trigger] l2[m].1) by {
                        if m < rest.len() {
                            assert(l2[m] == rest[m]);
                        }
                    }
                }
                lemma_be_choice_free(w1, w2, cur, l2);
            },
            DocV::Text(s) => lemma_be_choice_free(w1, w2, cur + s.len(), rest),
            DocV::Line => lemma_be_choice_free(w1, w2, i, rest),
            DocV::Or(_, _) => {},
        }
    }
}

/// A document without choices lays out the same at every width.
pub proof fn law_choice_free_width(d: DocV, w1: nat, w2: nat)
    requires
        choice_free(d),
    ensures
        best_spec(d, w1) == best_spec(d, w2),
{
    let ls = seq![(0nat, d)];
    assert(stack_choice_free(ls));
    lemma_be_choice_free(w1, w2, 0, ls);
}

/// The document with each choice replaced by its second alternative.
pub open spec fn second_choices(d: DocV) -> DocV
    decreases d,
{
    match d {
        DocV::Concat(a, b) => DocV::Concat(Box::new(second_choices(*a)), Box::new(second_choices(*b))),
        DocV::Nest(k, c) => DocV::Nest(k, Box::new(second_choices(*c))),
        DocV::Or(_, b) => second_choices(*b),
        _ => d,
    }
}

pub open spec fn seconds_stack(ls: Seq<(nat, DocV)>) -> Seq<(nat, DocV)> {
    ls.map_values(|x: (nat, DocV)| (x.0, second_choices(x.1)))
}

proof fn lemma_second_choices_free(d: DocV)
    ensures
        choice_free(second_choices(d)),
    decreases d,
{
    match d {
        DocV::Concat(a, b) => {
            lemma_second_choices_free(*a);
            lemma_second_choices_free(*b);
        },
        DocV::Nest(_, c) => lemma_second_choices_free(*c),
        DocV::Or(_, b) => lemma_second_choices_free(*b),
        _ => {},
    }
}

proof fn lemma_seconds_push(ls: Seq<(nat, DocV)>, x: (nat, DocV))
    ensures
        seconds_stack(ls.push(x)) == seconds_stack(ls).push((x.0, second_choices(x.1))),
{
    assert(seconds_stack(ls.push(x)) =~= seconds_stack(ls).push((x.0, second_choices(x.1))));
}

proof fn lemma_be_zero(cur: nat, ls: Seq<(nat, DocV)>)
    ensures
        be_spec(0, cur, ls) == be_spec(0, cur, seconds_stack(ls)),
    decreases stack_size(ls),
{
    if ls.len() > 0 {
        let i = ls.last().0;
        let top = ls.last().1;
        let rest = ls.drop_last();
        assert(ls =~= rest.push(ls.last()));
        lemma_stack_size_push(rest, ls.last());
        lemma_seconds_push(rest, ls.last());
        let sr = seconds_stack(rest);
        let sl = seconds_stack(ls);
        assert(sl == sr.push((i, second_choices(top))));
        assert(sl.drop_last() =~= sr);
        assert(sl.last() == (i, second_choices(top)));
        match top {
            DocV::Nil => lemma_be_zero(cur, rest),
            DocV::Concat(a, b) => {
                let l2 = rest.push((i, *b)).push((i, *a));
                lemma_stack_size_push(rest, (i, *b));
                lemma_stack_size_push(rest.push((i, *b)), (i, *a));
                lemma_seconds_push(rest, (i, *b));
                lemma_seconds_push(rest.push((i, *b)), (i, *a));
                lemma_be_zero(cur, l2);
            },
            DocV::Nest(k, c) => {
                let l2 = rest.push((i + k, *c));
                lemma_stack_size_push(rest, (i + k, *c));
                lemma_seconds_push(rest, (i + k, *c));
                lemma_be_zero(cur, l2);
            },
            DocV::Text(s) => lemma_be_zero(cur + s.len(), rest),
            DocV::Line => lemma_be_zero(i, rest),
            DocV::Or(a, b) => {
                let lb = rest.push((i, *b));
                lemma_stack_size_push(rest, (i, *b));
                lemma_stack_size_push(rest, (i, *a));
                lemma_seconds_push(rest, (i, *b));
                lemma_be_zero(cur, lb);
            },
        }
    }
}

/// At width 0 no line fits, so every choice takes its second alternative:
/// the layout is that of the document with each choice replaced by its
/// second alternative, which lays out the same at every width.
pub proof fn law_zero_width(d: DocV, width: nat)
    ensures
        best_spec(d, 0) == best_spec(second_choices(d), width),
{
    let ls = seq![(0nat, d)];
    lemma_be_zero(0, ls);
    assert(seconds_stack(ls) =~= seq![(0nat, second_choices(d))]);
    lemma_second_choices_free(d);
    law_choice_free_width(second_choices(d), 0, width);
}

} // verus!
