//! What a document without a defect looks like: its fills alternate, and no
//! two of its groups carry the same handle.

use crate::doc::DocView;
use crate::validate::{
    lemma_scan_all_stuck, lemma_scan_stuck, scan, scan_all, well_formed, Scan,
};
use vstd::prelude::*;

verus! {

/// Every fill of `doc` holds an odd number of items: contents and
/// separators in turn, from a content to a content.
pub open spec fn fills_alternate(doc: DocView) -> bool
    decreases doc,
{
    match doc {
        DocView::Fill(docs) => docs.len() % 2 == 1 && all_fills_alternate(docs),
        DocView::Concat(docs) => all_fills_alternate(docs),
        DocView::Indent(d) => fills_alternate(*d),
        DocView::Align(_, d) => fills_alternate(*d),
        DocView::LineSuffix(d) => fills_alternate(*d),
        DocView::IfBreak { when_break, when_flat, .. } => fills_alternate(*when_break)
            && fills_alternate(*when_flat),
        DocView::Group { contents, expanded_states, .. } => fills_alternate(*contents) && (
        match expanded_states {
            Some(states) => all_fills_alternate(states),
            None => true,
        }),
        _ => true,
    }
}

/// [`fills_alternate`] of each of `docs`.
pub open spec fn all_fills_alternate(docs: Seq<DocView>) -> bool
    decreases docs,
{
    docs.len() == 0 || (all_fills_alternate(docs.drop_last()) && fills_alternate(docs.last()))
}

/// The handles of the groups of `doc`, in reading order: a group before its
/// contents, its contents before its expanded states.
pub open spec fn handles(doc: DocView) -> Seq<u32>
    decreases doc,
{
    match doc {
        DocView::Fill(docs) => handles_of_all(docs),
        DocView::Concat(docs) => handles_of_all(docs),
        DocView::Indent(d) => handles(*d),
        DocView::Align(_, d) => handles(*d),
        DocView::LineSuffix(d) => handles(*d),
        DocView::IfBreak { when_break, when_flat, .. } => handles(*when_break) + handles(
            *when_flat,
        ),
        DocView::Group { id, contents, expanded_states, .. } => (match id {
            Some(handle) => seq![handle],
            None => Seq::empty(),
        }) + handles(*contents) + (match expanded_states {
            Some(states) => handles_of_all(states),
            None => Seq::empty(),
        }),
        _ => Seq::empty(),
    }
}

/// The handles of the groups of `docs`, in reading order.
pub open spec fn handles_of_all(docs: Seq<DocView>) -> Seq<u32>
    decreases docs,
{
    if docs.len() == 0 {
        Seq::empty()
    } else {
        handles_of_all(docs.drop_last()) + handles(docs.last())
    }
}

/// What the search has met after a run of handles that were new to it: the
/// handles are distinct, none of them was met before, and the search has
/// met them and nothing else.
pub open spec fn met(before: Scan, after: Scan, run: Seq<u32>) -> bool {
    &&& run.no_duplicates()
    &&& forall|h: u32| #[trigger] run.contains(h) ==> !before.seen.contains(h)
    &&& forall|h: u32|
        #![trigger after.seen.contains(h)]
        #![trigger before.seen.contains(h)]
        #![trigger run.contains(h)]
        after.seen.contains(h) <==> before.seen.contains(h) || run.contains(h)
}

/// Two runs of handles met one after the other are one run.
proof fn lemma_met_then(a: Scan, b: Scan, c: Scan, first: Seq<u32>, second: Seq<u32>)
    requires
        met(a, b, first),
        met(b, c, second),
    ensures
        met(a, c, first + second),
{
    let all = first + second;
    assert forall|h: u32| all.contains(h) <==> first.contains(h) || second.contains(h) by {
        if all.contains(h) {
            let i = choose|i: int| 0 <= i < all.len() && all[i] == h;
            if i < first.len() {
                assert(first[i] == h);
            } else {
                assert(second[i - first.len()] == h);
            }
        }
        if first.contains(h) {
            let i = choose|i: int| 0 <= i < first.len() && first[i] == h;
            assert(all[i] == h);
        }
        if second.contains(h) {
            let i = choose|i: int| 0 <= i < second.len() && second[i] == h;
            assert(all[first.len() + i] == h);
        }
    }
    assert forall|i: int, j: int| 0 <= i < all.len() && 0 <= j < all.len() && i != j implies all[i]
        != all[j] by {
        if i < first.len() && j < first.len() {
            assert(all[i] == first[i] && all[j] == first[j]);
        } else if i >= first.len() && j >= first.len() {
            assert(all[i] == second[i - first.len()] && all[j] == second[j - first.len()]);
        } else if i < first.len() {
            assert(first[i] == all[i]);
            assert(second[j - first.len()] == all[j]);
            assert(first.contains(all[i]));
            assert(second.contains(all[j]));
            assert(b.seen.contains(all[i]));
            assert(!b.seen.contains(all[j]));
        } else {
            assert(first[j] == all[j]);
            assert(second[i - first.len()] == all[i]);
            assert(first.contains(all[j]));
            assert(second.contains(all[i]));
            assert(b.seen.contains(all[j]));
            assert(!b.seen.contains(all[i]));
        }
    }
    assert(all.no_duplicates());
    assert forall|h: u32| all.contains(h) implies !a.seen.contains(h) by {
        if second.contains(h) {
            assert(!b.seen.contains(h));
        }
    }
    assert forall|h: u32| c.seen.contains(h) <==> a.seen.contains(h) || all.contains(h) by {
        assert(c.seen.contains(h) <==> b.seen.contains(h) || second.contains(h));
        assert(b.seen.contains(h) <==> a.seen.contains(h) || first.contains(h));
    }
}

/// A search that meets no handle.
proof fn lemma_met_none(a: Scan, b: Scan)
    requires
        a.seen == b.seen,
    ensures
        met(a, b, Seq::empty()),
{
}

/// A search that has gone through a document and found no defect has met
/// the handles of the document, each for the first time.
pub proof fn lemma_scan_meets_handles(doc: DocView, s: Scan)
    requires
        scan(doc, s).defect is None,
    ensures
        s.defect is None,
        met(s, scan(doc, s), handles(doc)),
        fills_alternate(doc),
    decreases doc,
{
    let entered = Scan { next: s.next + 1, ..s };
    match doc {
        DocView::Concat(docs) => {
            lemma_scan_all_meets_handles(docs, entered);
        },
        DocView::Fill(docs) => {
            lemma_scan_all_meets_handles(docs, entered);
        },
        DocView::Indent(d) => {
            lemma_scan_meets_handles(*d, entered);
        },
        DocView::Align(_, d) => {
            lemma_scan_meets_handles(*d, entered);
        },
        DocView::LineSuffix(d) => {
            lemma_scan_meets_handles(*d, entered);
        },
        DocView::IfBreak { when_break, when_flat, .. } => {
            let middle = scan(*when_break, entered);
            if middle.defect is Some {
                lemma_scan_stuck(*when_flat, middle);
            }
            lemma_scan_meets_handles(*when_break, entered);
            lemma_scan_meets_handles(*when_flat, middle);
            lemma_met_then(
                entered,
                middle,
                scan(*when_flat, middle),
                handles(*when_break),
                handles(*when_flat),
            );
        },
        DocView::Group { id, contents, expanded_states, .. } => {
            let own: Seq<u32> = match id {
                Some(handle) => seq![handle],
                None => Seq::empty(),
            };
            let opened = Scan {
                seen: match id {
                    Some(handle) => s.seen.insert(handle),
                    None => s.seen,
                },
                ..entered
            };
            let inside = scan(*contents, opened);
            assert(met(s, opened, own)) by {
                match id {
                    Some(handle) => {
                        assert(own[0] == handle);
                        assert forall|h: u32| own.contains(h) implies h == handle by {
                            let i = choose|i: int| 0 <= i < own.len() && own[i] == h;
                        }
                    },
                    None => {},
                }
            }
            match expanded_states {
                Some(states) => {
                    if inside.defect is Some {
                        assert(states.take(0) =~= Seq::<DocView>::empty());
                        lemma_scan_all_stuck(states, 0, inside);
                    }
                    lemma_scan_meets_handles(*contents, opened);
                    lemma_scan_all_meets_handles(states, inside);
                    lemma_met_then(s, opened, inside, own, handles(*contents));
                    lemma_met_then(
                        s,
                        inside,
                        scan_all(states, inside),
                        own + handles(*contents),
                        handles_of_all(states),
                    );
                        },
                None => {
                    lemma_scan_meets_handles(*contents, opened);
                    lemma_met_then(s, opened, inside, own, handles(*contents));
                    assert(own + handles(*contents) + Seq::<u32>::empty() =~= own + handles(
                        *contents,
                    ));
                        },
            }
        },
        _ => {},
    }
}

/// [`lemma_scan_meets_handles`] of a run of documents.
pub proof fn lemma_scan_all_meets_handles(docs: Seq<DocView>, s: Scan)
    requires
        scan_all(docs, s).defect is None,
    ensures
        s.defect is None,
        met(s, scan_all(docs, s), handles_of_all(docs)),
        all_fills_alternate(docs),
    decreases docs,
{
    if docs.len() > 0 {
        let before = scan_all(docs.drop_last(), s);
        if before.defect is Some {
            lemma_scan_stuck(docs.last(), before);
        }
        lemma_scan_all_meets_handles(docs.drop_last(), s);
        lemma_scan_meets_handles(docs.last(), before);
        lemma_met_then(
            s,
            before,
            scan(docs.last(), before),
            handles_of_all(docs.drop_last()),
            handles(docs.last()),
        );
    }
}

/// In a document without a defect every fill runs from a content to a
/// content, and no two groups carry the same handle.
pub proof fn law_well_formed_shape(doc: DocView)
    requires
        well_formed(doc),
    ensures
        fills_alternate(doc),
        handles(doc).no_duplicates(),
{
    lemma_scan_meets_handles(doc, Scan { seen: Set::empty(), next: 0, defect: None });
}

} // verus!
