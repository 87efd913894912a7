//! The pass that marks every group that holds a forced break, so that the
//! printer knows it before it chooses the mode of an enclosing group.

use crate::doc::{doc_view, docs_view, docs_weight, lemma_docs_view, weight, Doc, DocView};
use vstd::prelude::*;

verus! {

/// Whether `doc` forces the group around it to break: it holds a hard or
/// literal line, a `BreakParent`, or a group that is marked broken, on a path
/// that enters no group with expanded states. Such a group decides for
/// itself: it passes on its own mark and nothing of what it holds.
pub open spec fn forces_break(doc: DocView) -> bool
    decreases doc,
{
    match doc {
        DocView::Text(_) => false,
        DocView::Trim => false,
        DocView::Line(kind) => kind.forced(),
        DocView::BreakParent => true,
        DocView::Concat(docs) => any_forces_break(docs),
        DocView::Fill(docs) => any_forces_break(docs),
        DocView::Indent(d) => forces_break(*d),
        DocView::Align(_, d) => forces_break(*d),
        DocView::LineSuffix(d) => forces_break(*d),
        DocView::IfBreak { when_break, when_flat, .. } => forces_break(*when_break)
            || forces_break(*when_flat),
        DocView::Group { contents, should_break, expanded_states, .. } => match expanded_states {
            Some(_) => should_break,
            None => should_break || forces_break(*contents),
        },
    }
}

/// Whether one of `docs` forces a break.
pub open spec fn any_forces_break(docs: Seq<DocView>) -> bool
    decreases docs,
{
    if docs.len() == 0 {
        false
    } else {
        any_forces_break(docs.drop_last()) || forces_break(docs.last())
    }
}

/// `doc` with the mark of every group set to whether the group forces a
/// break.
pub open spec fn propagated(doc: DocView) -> DocView
    decreases doc,
{
    match doc {
        DocView::Concat(docs) => DocView::Concat(propagated_all(docs)),
        DocView::Fill(docs) => DocView::Fill(propagated_all(docs)),
        DocView::Indent(d) => DocView::Indent(Box::new(propagated(*d))),
        DocView::Align(n, d) => DocView::Align(n, Box::new(propagated(*d))),
        DocView::LineSuffix(d) => DocView::LineSuffix(Box::new(propagated(*d))),
        DocView::IfBreak { when_break, when_flat, target_group } => DocView::IfBreak {
            when_break: Box::new(propagated(*when_break)),
            when_flat: Box::new(propagated(*when_flat)),
            target_group,
        },
        DocView::Group { id, contents, should_break, expanded_states } => DocView::Group {
            id,
            contents: Box::new(propagated(*contents)),
            should_break: forces_break(doc),
            expanded_states: match expanded_states {
                Some(states) => Some(propagated_all(states)),
                None => None,
            },
        },
        _ => doc,
    }
}

/// Each of `docs`, propagated.
pub open spec fn propagated_all(docs: Seq<DocView>) -> Seq<DocView>
    decreases docs,
{
    Seq::new(
        docs.len(),
        |i: int|
            if 0 <= i < docs.len() {
                propagated(docs[i])
            } else {
                DocView::Trim
            },
    )
}

/// Marks every group of `doc` that holds a forced break, and says whether
/// `doc` forces the group around it to break.
pub fn propagate_breaks<'a>(doc: &mut Doc<'a>) -> (forced: bool)
    ensures
        doc_view(*final(doc)) == propagated(doc_view(*old(doc))),
        forced == forces_break(doc_view(*old(doc))),
    decreases *old(doc),
{
    let ghost before = doc_view(*doc);
    match doc {
        Doc::Text(_) => false,
        Doc::Trim => false,
        Doc::Line(kind) => kind.is_forced(),
        Doc::BreakParent => true,
        Doc::Concat(docs) => propagate_all(docs),
        Doc::Fill(docs) => propagate_all(docs),
        Doc::Indent(d) => propagate_breaks(&mut **d),
        Doc::Align(_, d) => propagate_breaks(&mut **d),
        Doc::LineSuffix(d) => propagate_breaks(&mut **d),
        Doc::IfBreak { when_break, when_flat, .. } => {
            let broken = propagate_breaks(&mut **when_break);
            let flat = propagate_breaks(&mut **when_flat);
            broken || flat
        },
        Doc::Group { contents, should_break, expanded_states, .. } => {
            let inner = propagate_breaks(&mut **contents);
            match expanded_states {
                Some(states) => {
                    propagate_all(states);
                },
                None => {
                    if inner {
                        *should_break = true;
                    }
                },
            }
            *should_break
        },
    }
}

/// [`propagate_breaks`] on each of `docs`; says whether one of them forces a
/// break.
pub fn propagate_all<'a>(docs: &mut Vec<Doc<'a>>) -> (forced: bool)
    ensures
        docs_view(final(docs)@) == propagated_all(docs_view(old(docs)@)),
        forced == any_forces_break(docs_view(old(docs)@)),
    decreases *old(docs),
{
    broadcast use lemma_docs_view;

    let ghost before = docs_view(docs@);
    let mut forced = false;
    let mut i: usize = 0;
    assert(before.take(0) =~= Seq::<DocView>::empty());
    while i < docs.len()
        invariant
            i <= docs.len(),
            docs@.len() == old(docs)@.len(),
            before == docs_view(old(docs)@),
            forall|j: int| 0 <= j < i ==> doc_view(#[trigger] docs@[j]) == propagated(before[j]),
            forall|j: int| i <= j < docs.len() ==> #[trigger] docs@[j] == old(docs)@[j],
            forced == any_forces_break(before.take(i as int)),
        decreases docs.len() - i,
    {
        let one = propagate_breaks(&mut docs[i]);
        forced = forced || one;
        i = i + 1;
        proof {
            assert(before.take(i as int).drop_last() =~= before.take(i - 1));
        }
    }
    proof {
        assert(before.take(i as int) =~= before);
        assert(docs_view(docs@) =~= propagated_all(before));
    }
    forced
}

/// The pass changes no weight.
pub proof fn lemma_propagated_weight(doc: DocView, tab: nat)
    ensures
        weight(propagated(doc), tab) == weight(doc, tab),
    decreases doc,
{
    match doc {
        DocView::Concat(docs) => {
            lemma_propagated_all_weight(docs, tab);
        },
        DocView::Fill(docs) => {
            lemma_propagated_all_weight(docs, tab);
        },
        DocView::Indent(d) => {
            lemma_propagated_weight(*d, tab);
        },
        DocView::Align(_, d) => {
            lemma_propagated_weight(*d, tab);
        },
        DocView::LineSuffix(d) => {
            lemma_propagated_weight(*d, tab);
        },
        DocView::IfBreak { when_break, when_flat, .. } => {
            lemma_propagated_weight(*when_break, tab);
            lemma_propagated_weight(*when_flat, tab);
        },
        DocView::Group { contents, expanded_states, .. } => {
            lemma_propagated_weight(*contents, tab);
            match expanded_states {
                Some(states) => {
                    lemma_propagated_all_weight(states, tab);
                },
                None => {},
            }
        },
        _ => {},
    }
}

/// The pass changes neither the number nor the weight of a run of documents.
pub proof fn lemma_propagated_all_weight(docs: Seq<DocView>, tab: nat)
    ensures
        propagated_all(docs).len() == docs.len(),
        docs_weight(propagated_all(docs), tab) == docs_weight(docs, tab),
    decreases docs,
{
    if docs.len() > 0 {
        assert(propagated_all(docs).drop_first() =~= propagated_all(docs.drop_first()));
        assert(propagated_all(docs).first() == propagated(docs.first()));
        lemma_propagated_weight(docs.first(), tab);
        lemma_propagated_all_weight(docs.drop_first(), tab);
    }
}

} // verus!
