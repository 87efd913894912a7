//! Construction defects: what makes a document ill formed, and the check that
//! names the first offending node.

use crate::doc::{doc_view, docs_view, docs_weight, lemma_docs_view, weight, Doc, DocView};
use crate::printer::MAX_WEIGHT;
use std::collections::HashSet;
use vstd::prelude::*;
use vstd::string::StrSliceExecFns;

verus! {

/// Why a document is refused. `node` counts the nodes that come before the
/// offending one when the tree is read parent first, children in order.
#[derive(Clone, Copy, Debug, PartialEq, Eq, Structural)]
pub enum Defect {
    /// A fill with an even number of items: contents and separators do not
    /// alternate from a content to a content.
    MalformedFill { node: usize, len: usize },
    /// An `IfBreak` that names a group which neither encloses it nor comes
    /// before it.
    UnknownGroup { node: usize, id: u32 },
    /// A group with a handle that a group before it or around it carries:
    /// handles are issued once.
    DuplicateGroup { node: usize, id: u32 },
    /// The document weighs more than [`MAX_WEIGHT`].
    TooLarge,
}

/// The state of the search for a defect.
pub struct Scan {
    /// The handles of the groups met so far.
    pub seen: Set<u32>,
    /// The number of nodes met so far.
    pub next: nat,
    /// The first defect, once one is found.
    pub defect: Option<Defect>,
}

/// The search after it has gone through `doc`. It stops at the first defect.
pub open spec fn scan(doc: DocView, s: Scan) -> Scan
    decreases doc,
{
    let entered = Scan { next: s.next + 1, ..s };
    if s.defect is Some {
        s
    } else {
        match doc {
            DocView::Text(_) => entered,
            DocView::Line(_) => entered,
            DocView::BreakParent => entered,
            DocView::Trim => entered,
            DocView::Concat(docs) => scan_all(docs, entered),
            DocView::Fill(docs) => if docs.len() % 2 == 0 {
                Scan {
                    defect: Some(
                        Defect::MalformedFill { node: s.next as usize, len: docs.len() as usize },
                    ),
                    ..s
                }
            } else {
                scan_all(docs, entered)
            },
            DocView::Indent(d) => scan(*d, entered),
            DocView::Align(_, d) => scan(*d, entered),
            DocView::LineSuffix(d) => scan(*d, entered),
            DocView::IfBreak { when_break, when_flat, target_group } => {
                if target_group is Some && !s.seen.contains(target_group->0) {
                    Scan {
                        defect: Some(
                            Defect::UnknownGroup { node: s.next as usize, id: target_group->0 },
                        ),
                        ..s
                    }
                } else {
                    scan(*when_flat, scan(*when_break, entered))
                }
            },
            DocView::Group { id, contents, expanded_states, .. } => {
                if id is Some && s.seen.contains(id->0) {
                    Scan {
                        defect: Some(Defect::DuplicateGroup { node: s.next as usize, id: id->0 }),
                        ..s
                    }
                } else {
                    let inside = scan(
                        *contents,
                        Scan {
                            seen: match id {
                                Some(handle) => s.seen.insert(handle),
                                None => s.seen,
                            },
                            ..entered
                        },
                    );
                    match expanded_states {
                        Some(states) => scan_all(states, inside),
                        None => inside,
                    }
                }
            },
        }
    }
}

/// The search after it has gone through `docs` in order.
pub open spec fn scan_all(docs: Seq<DocView>, s: Scan) -> Scan
    decreases docs,
{
    if docs.len() == 0 {
        s
    } else {
        scan(docs.last(), scan_all(docs.drop_last(), s))
    }
}

/// The first defect of `doc`, if it has one.
pub open spec fn first_defect(doc: DocView) -> Option<Defect> {
    scan(doc, Scan { seen: Set::empty(), next: 0, defect: None }).defect
}

/// Every fill of `doc` alternates contents and separators from a content to
/// a content, every `IfBreak` names a group that is known where it stands,
/// and no two groups carry the same handle.
pub open spec fn well_formed(doc: DocView) -> bool {
    first_defect(doc) is None
}

/// What is left of `budget` after `cost`, if it is enough.
pub open spec fn spend(budget: usize, cost: nat) -> Option<usize> {
    if cost <= budget {
        Some((budget - cost) as usize)
    } else {
        None
    }
}

/// Executable form of [`spend`].
fn pay(budget: usize, cost: usize) -> (left: Option<usize>)
    ensures
        left == spend(budget, cost as nat),
{
    if cost <= budget {
        Some(budget - cost)
    } else {
        None
    }
}

/// What is left of `budget` after the weight of `doc`, if it is enough.
pub fn weigh<'a>(doc: &Doc<'a>, tab: usize, budget: usize) -> (left: Option<usize>)
    ensures
        left == spend(budget, weight(doc@, tab as nat)),
    decreases doc,
{
    assert(doc@ == doc_view(*doc));
    let after = match pay(budget, 1) {
        Some(b) => b,
        None => {
            return None;
        },
    };
    match doc {
        Doc::Text(t) => pay(after, t.unicode_len()),
        Doc::Line(_) => Some(after),
        Doc::BreakParent => Some(after),
        Doc::Trim => Some(after),
        Doc::Concat(docs) => weigh_all(docs, tab, after),
        Doc::Fill(docs) => {
            proof {
                lemma_docs_view(docs@);
            }
            match pay(after, docs.len()) {
                Some(b) => weigh_all(docs, tab, b),
                None => None,
            }
        },
        Doc::Indent(d) => match pay(after, tab) {
            Some(b) => weigh(&**d, tab, b),
            None => None,
        },
        Doc::Align(n, d) => match pay(after, *n) {
            Some(b) => weigh(&**d, tab, b),
            None => None,
        },
        Doc::LineSuffix(d) => weigh(&**d, tab, after),
        Doc::IfBreak { when_break, when_flat, .. } => match weigh(&**when_break, tab, after) {
            Some(b) => weigh(&**when_flat, tab, b),
            None => None,
        },
        Doc::Group { contents, expanded_states, .. } => match weigh(&**contents, tab, after) {
            Some(b) => match expanded_states {
                Some(states) => weigh_all(states, tab, b),
                None => Some(b),
            },
            None => None,
        },
    }
}

/// What is left of `budget` after the weights of `docs`, if it is enough.
pub fn weigh_all<'a>(docs: &Vec<Doc<'a>>, tab: usize, budget: usize) -> (left: Option<usize>)
    ensures
        left == spend(budget, docs_weight(docs_view(docs@), tab as nat)),
    decreases docs,
{
    broadcast use lemma_docs_view;

    let ghost views = docs_view(docs@);
    let mut left = budget;
    let mut i: usize = 0;
    assert(views.skip(0) =~= views);
    while i < docs.len()
        invariant
            i <= docs.len(),
            views == docs_view(docs@),
            left <= budget,
            docs_weight(views, tab as nat) == (budget - left) + docs_weight(
                views.skip(i as int),
                tab as nat,
            ),
        decreases docs.len() - i,
    {
        proof {
            assert(views.skip(i as int).drop_first() =~= views.skip(i + 1));
            assert(views.skip(i as int).first() == doc_view(docs@[i as int]));
        }
        match weigh(&docs[i], tab, left) {
            Some(b) => {
                left = b;
            },
            None => {
                return None;
            },
        }
        i = i + 1;
    }
    Some(left)
}

/// A search that has found a defect goes no further.
pub proof fn lemma_scan_stuck(doc: DocView, s: Scan)
    requires
        s.defect is Some,
    ensures
        scan(doc, s) == s,
{
}

/// Once the search has found a defect among the first `k` of `docs`, the
/// rest changes nothing.
pub proof fn lemma_scan_all_stuck(docs: Seq<DocView>, k: int, s: Scan)
    requires
        0 <= k <= docs.len(),
        scan_all(docs.take(k), s).defect is Some,
    ensures
        scan_all(docs, s) == scan_all(docs.take(k), s),
    decreases docs.len() - k,
{
    if k == docs.len() {
        assert(docs.take(k) =~= docs);
    } else {
        let found = scan_all(docs.take(k), s);
        assert(docs.take(k + 1).drop_last() =~= docs.take(k));
        assert(docs.take(k + 1).last() == docs[k]);
        assert(scan(docs[k], found) == found);
        assert(scan_all(docs.take(k + 1), s) == scan(docs[k], found));
        lemma_scan_all_stuck(docs, k + 1, s);
    }
}

/// Executable form of [`scan`], from a state without a defect. `tab` is the
/// tab stop by which the document was weighed.
fn scan_doc<'a>(
    doc: &Doc<'a>,
    seen: &mut HashSet<u32>,
    next: &mut usize,
    Ghost(tab): Ghost<nat>,
) -> (defect: Option<Defect>)
    requires
        *old(next) + weight(doc@, tab) <= usize::MAX,
    ensures
        scan(doc@, Scan { seen: old(seen)@, next: *old(next) as nat, defect: None }) == (Scan {
            seen: final(seen)@,
            next: *final(next) as nat,
            defect,
        }),
        *final(next) <= *old(next) + weight(doc@, tab),
    decreases doc,
{
    broadcast use vstd::std_specs::hash::group_hash_axioms;

    assert(doc@ == doc_view(*doc));
    let node = *next;
    match doc {
        Doc::Text(_) => {
            *next = node + 1;
            None
        },
        Doc::Line(_) => {
            *next = node + 1;
            None
        },
        Doc::BreakParent => {
            *next = node + 1;
            None
        },
        Doc::Trim => {
            *next = node + 1;
            None
        },
        Doc::Concat(docs) => {
            *next = node + 1;
            scan_docs(docs, seen, next, Ghost(tab))
        },
        Doc::Fill(docs) => {
            proof {
                lemma_docs_view(docs@);
            }
            if docs.len() % 2 == 0 {
                return Some(Defect::MalformedFill { node, len: docs.len() });
            }
            *next = node + 1;
            scan_docs(docs, seen, next, Ghost(tab))
        },
        Doc::Indent(d) => {
            *next = node + 1;
            scan_doc(&**d, seen, next, Ghost(tab))
        },
        Doc::Align(_, d) => {
            *next = node + 1;
            scan_doc(&**d, seen, next, Ghost(tab))
        },
        Doc::LineSuffix(d) => {
            *next = node + 1;
            scan_doc(&**d, seen, next, Ghost(tab))
        },
        Doc::IfBreak { when_break, when_flat, target_group } => {
            match target_group {
                Some(id) => {
                    if !seen.contains(id) {
                        return Some(Defect::UnknownGroup { node, id: *id });
                    }
                },
                None => {},
            }
            *next = node + 1;
            match scan_doc(&**when_break, seen, next, Ghost(tab)) {
                Some(d) => {
                    proof {
                        lemma_scan_stuck(
                            when_flat@,
                            Scan { seen: seen@, next: *next as nat, defect: Some(d) },
                        );
                    }
                    Some(d)
                },
                None => scan_doc(&**when_flat, seen, next, Ghost(tab)),
            }
        },
        Doc::Group { id, contents, expanded_states, .. } => {
            match id {
                Some(handle) => {
                    if seen.contains(handle) {
                        return Some(Defect::DuplicateGroup { node, id: *handle });
                    }
                    seen.insert(*handle);
                },
                None => {},
            }
            *next = node + 1;
            match scan_doc(&**contents, seen, next, Ghost(tab)) {
                Some(d) => {
                    proof {
                        let found = Scan { seen: seen@, next: *next as nat, defect: Some(d) };
                        match expanded_states {
                            Some(states) => {
                                let views = docs_view(states@);
                                assert(views.take(0) =~= Seq::<DocView>::empty());
                                assert(scan_all(views.take(0), found) == found);
                                lemma_scan_all_stuck(views, 0, found);
                            },
                            None => {},
                        }
                    }
                    Some(d)
                },
                None => match expanded_states {
                    Some(states) => scan_docs(states, seen, next, Ghost(tab)),
                    None => None,
                },
            }
        },
    }
}

/// Executable form of [`scan_all`], from a state without a defect.
fn scan_docs<'a>(
    docs: &Vec<Doc<'a>>,
    seen: &mut HashSet<u32>,
    next: &mut usize,
    Ghost(tab): Ghost<nat>,
) -> (defect: Option<Defect>)
    requires
        *old(next) + docs_weight(docs_view(docs@), tab) <= usize::MAX,
    ensures
        scan_all(
            docs_view(docs@),
            Scan { seen: old(seen)@, next: *old(next) as nat, defect: None },
        ) == (Scan { seen: final(seen)@, next: *final(next) as nat, defect }),
        *final(next) <= *old(next) + docs_weight(docs_view(docs@), tab),
    decreases docs,
{
    broadcast use lemma_docs_view;

    let ghost views = docs_view(docs@);
    let ghost s0 = Scan { seen: seen@, next: *next as nat, defect: None };
    let mut i: usize = 0;
    assert(views.skip(0) =~= views);
    assert(views.take(0) =~= Seq::<DocView>::empty());
    while i < docs.len()
        invariant
            i <= docs.len(),
            views == docs_view(docs@),
            s0 == (Scan { seen: old(seen)@, next: *old(next) as nat, defect: None }),
            *next + docs_weight(views.skip(i as int), tab) <= *old(next) + docs_weight(views, tab),
            *old(next) + docs_weight(views, tab) <= usize::MAX,
            scan_all(views.take(i as int), s0) == (Scan {
                seen: seen@,
                next: *next as nat,
                defect: None,
            }),
        decreases docs.len() - i,
    {
        proof {
            assert(views.skip(i as int).drop_first() =~= views.skip(i + 1));
            assert(views.skip(i as int).first() == doc_view(docs@[i as int]));
            assert(views.take(i + 1).drop_last() =~= views.take(i as int));
            assert(views.take(i + 1).last() == doc_view(docs@[i as int]));
        }
        match scan_doc(&docs[i], seen, next, Ghost(tab)) {
            Some(d) => {
                proof {
                    assert(scan_all(views.take(i + 1), s0) == scan(
                        views[i as int],
                        scan_all(views.take(i as int), s0),
                    ));
                    lemma_scan_all_stuck(views, i + 1, s0);
                }
                return Some(d);
            },
            None => {
                assert(scan_all(views.take(i + 1), s0) == scan(
                    views[i as int],
                    scan_all(views.take(i as int), s0),
                ));
            },
        }
        i = i + 1;
    }
    assert(views.take(i as int) =~= views);
    None
}

/// What [`check`] says of a document.
pub open spec fn verdict(doc: DocView, tab: nat) -> Result<(), Defect> {
    if weight(doc, tab) > MAX_WEIGHT {
        Err(Defect::TooLarge)
    } else {
        match first_defect(doc) {
            Some(d) => Err(d),
            None => Ok(()),
        }
    }
}

/// Accepts a document that the printer can take, or names what is wrong with
/// it: that it is too heavy for a tab stop of `tab_width` columns, or else
/// its first defect.
pub fn check<'a>(doc: &Doc<'a>, tab_width: usize) -> (r: Result<(), Defect>)
    ensures
        r == verdict(doc@, tab_width as nat),
        r is Ok <==> weight(doc@, tab_width as nat) <= MAX_WEIGHT && well_formed(doc@),
{
    if weigh(doc, tab_width, MAX_WEIGHT).is_none() {
        return Err(Defect::TooLarge);
    }
    let mut seen: HashSet<u32> = HashSet::new();
    let mut next: usize = 0;
    match scan_doc(doc, &mut seen, &mut next, Ghost(tab_width as nat)) {
        Some(d) => Err(d),
        None => Ok(()),
    }
}

} // verus!
