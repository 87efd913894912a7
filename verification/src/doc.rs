//! The document tree and its mathematical view.

use vstd::prelude::*;

verus! {

/// How a potential break point behaves.
#[derive(Clone, Copy, Debug, PartialEq, Eq, Structural)]
pub enum LineKind {
    /// A space when its group is flat, a newline when it is broken.
    Soft,
    /// Nothing when its group is flat, a newline when it is broken.
    Bare,
    /// Always a newline, indented to the current level.
    Hard,
    /// Always a newline, with no indentation after it.
    Literal,
}

impl LineKind {
    /// Whether this line is a newline whatever the mode of its group.
    pub open spec fn forced(self) -> bool {
        self == LineKind::Hard || self == LineKind::Literal
    }

    /// Executable form of [`LineKind::forced`].
    pub fn is_forced(self) -> (b: bool)
        ensures
            b == self.forced(),
    {
        match self {
            LineKind::Hard | LineKind::Literal => true,
            LineKind::Soft | LineKind::Bare => false,
        }
    }
}

/// A layout document: a tree that is built from finished parts and holds no
/// reference back into itself. Once built it is only read, but for the marks
/// that the propagation pass sets on its groups.
#[derive(Debug, PartialEq, Eq)]
pub enum Doc<'a> {
    /// Literal text. Its width is the number of its characters.
    Text(&'a str),
    /// Documents, one after the other.
    Concat(Vec<Doc<'a>>),
    /// A potential break point.
    Line(LineKind),
    /// A document, indented by one tab stop more.
    Indent(Box<Doc<'a>>),
    /// A document, indented by a number of columns more.
    Align(usize, Box<Doc<'a>>),
    /// The unit of the choice between flat and broken.
    Group {
        /// The handle by which an `IfBreak` elsewhere names this group.
        id: Option<u32>,
        contents: Box<Doc<'a>>,
        /// The mark that the group must break.
        should_break: bool,
        /// Alternative renderings, the least broken first.
        expanded_states: Option<Vec<Doc<'a>>>,
    },
    /// One of two documents, by the mode of a group: of the group that
    /// `target_group` names, or else of the nearest enclosing one.
    IfBreak { when_break: Box<Doc<'a>>, when_flat: Box<Doc<'a>>, target_group: Option<u32> },
    /// A document that is held back until the next newline.
    LineSuffix(Box<Doc<'a>>),
    /// A mark that forces every enclosing group to break. It has no width.
    BreakParent,
    /// Contents and separators in turn, beginning and ending with a content.
    /// Each separator breaks or not on its own.
    Fill(Vec<Doc<'a>>),
    /// A mark that erases the blanks that end the current line.
    Trim,
}

/// The mathematical value of a [`Doc`]: the same tree over sequences of
/// characters and of documents.
pub enum DocView {
    Text(Seq<char>),
    Concat(Seq<DocView>),
    Line(LineKind),
    Indent(Box<DocView>),
    Align(nat, Box<DocView>),
    Group {
        id: Option<u32>,
        contents: Box<DocView>,
        should_break: bool,
        expanded_states: Option<Seq<DocView>>,
    },
    IfBreak { when_break: Box<DocView>, when_flat: Box<DocView>, target_group: Option<u32> },
    LineSuffix(Box<DocView>),
    BreakParent,
    Fill(Seq<DocView>),
    Trim,
}

/// The mathematical value of a document.
pub open spec fn doc_view<'a>(doc: Doc<'a>) -> DocView
    decreases doc,
{
    match doc {
        Doc::Text(s) => DocView::Text(s@),
        Doc::Concat(docs) => DocView::Concat(docs_view(docs@)),
        Doc::Line(kind) => DocView::Line(kind),
        Doc::Indent(d) => DocView::Indent(Box::new(doc_view(*d))),
        Doc::Align(n, d) => DocView::Align(n as nat, Box::new(doc_view(*d))),
        Doc::Group { id, contents, should_break, expanded_states } => DocView::Group {
            id,
            contents: Box::new(doc_view(*contents)),
            should_break,
            expanded_states: match expanded_states {
                Some(states) => Some(docs_view(states@)),
                None => None,
            },
        },
        Doc::IfBreak { when_break, when_flat, target_group } => DocView::IfBreak {
            when_break: Box::new(doc_view(*when_break)),
            when_flat: Box::new(doc_view(*when_flat)),
            target_group,
        },
        Doc::LineSuffix(d) => DocView::LineSuffix(Box::new(doc_view(*d))),
        Doc::BreakParent => DocView::BreakParent,
        Doc::Fill(docs) => DocView::Fill(docs_view(docs@)),
        Doc::Trim => DocView::Trim,
    }
}

/// The views of a sequence of documents, in order.
pub open spec fn docs_view<'a>(docs: Seq<Doc<'a>>) -> Seq<DocView>
    decreases docs,
{
    Seq::new(docs.len(), |i: int| if 0 <= i < docs.len() { doc_view(docs[i]) } else { DocView::Trim })
}

/// The views of the expanded states of a group.
pub open spec fn states_view<'a>(states: Option<Vec<Doc<'a>>>) -> Option<Seq<DocView>> {
    match states {
        Some(docs) => Some(docs_view(docs@)),
        None => None,
    }
}

impl<'a> View for Doc<'a> {
    type V = DocView;

    open spec fn view(&self) -> DocView {
        doc_view(*self)
    }
}

impl<'a> Doc<'a> {
    /// Literal text.
    pub fn text(s: &'a str) -> (d: Doc<'a>)
        ensures
            d@ == DocView::Text(s@),
    {
        Doc::Text(s)
    }

    /// The documents `docs`, one after the other.
    pub fn concat(docs: Vec<Doc<'a>>) -> (d: Doc<'a>)
        ensures
            d@ == DocView::Concat(docs_view(docs@)),
    {
        Doc::Concat(docs)
    }

    /// A break point that is a space where it does not break.
    pub fn line() -> (d: Doc<'a>)
        ensures
            d@ == DocView::Line(LineKind::Soft),
    {
        Doc::Line(LineKind::Soft)
    }

    /// A break point that is nothing where it does not break.
    pub fn softline() -> (d: Doc<'a>)
        ensures
            d@ == DocView::Line(LineKind::Bare),
    {
        Doc::Line(LineKind::Bare)
    }

    /// A break that always happens.
    pub fn hardline() -> (d: Doc<'a>)
        ensures
            d@ == DocView::Line(LineKind::Hard),
    {
        Doc::Line(LineKind::Hard)
    }

    /// A break that always happens and leaves the next line unindented.
    pub fn literalline() -> (d: Doc<'a>)
        ensures
            d@ == DocView::Line(LineKind::Literal),
    {
        Doc::Line(LineKind::Literal)
    }

    /// `doc`, indented by one tab stop more.
    pub fn indent(doc: Doc<'a>) -> (d: Doc<'a>)
        ensures
            d@ == DocView::Indent(Box::new(doc@)),
    {
        Doc::Indent(Box::new(doc))
    }

    /// `doc`, indented by `width` columns more.
    pub fn align(width: usize, doc: Doc<'a>) -> (d: Doc<'a>)
        ensures
            d@ == DocView::Align(width as nat, Box::new(doc@)),
    {
        Doc::Align(width, Box::new(doc))
    }

    /// A group without a handle: it breaks all its lines or none.
    pub fn group(contents: Doc<'a>) -> (d: Doc<'a>)
        ensures
            d@ == (DocView::Group {
                id: None,
                contents: Box::new(contents@),
                should_break: false,
                expanded_states: None,
            }),
    {
        Doc::Group { id: None, contents: Box::new(contents), should_break: false, expanded_states: None }
    }

    /// A group that an `IfBreak` elsewhere can name by `id`.
    pub fn group_with_id(id: u32, contents: Doc<'a>) -> (d: Doc<'a>)
        ensures
            d@ == (DocView::Group {
                id: Some(id),
                contents: Box::new(contents@),
                should_break: false,
                expanded_states: None,
            }),
    {
        Doc::Group {
            id: Some(id),
            contents: Box::new(contents),
            should_break: false,
            expanded_states: None,
        }
    }

    /// A group with alternative renderings, the least broken first.
    pub fn conditional_group(contents: Doc<'a>, expanded_states: Vec<Doc<'a>>) -> (d: Doc<'a>)
        ensures
            d@ == (DocView::Group {
                id: None,
                contents: Box::new(contents@),
                should_break: false,
                expanded_states: Some(docs_view(expanded_states@)),
            }),
    {
        Doc::Group {
            id: None,
            contents: Box::new(contents),
            should_break: false,
            expanded_states: Some(expanded_states),
        }
    }

    /// `when_break` where the deciding group is broken, `when_flat` where it
    /// is flat. The deciding group is the one that `target_group` names, or
    /// the nearest enclosing one.
    pub fn if_break(when_break: Doc<'a>, when_flat: Doc<'a>, target_group: Option<u32>) -> (d: Doc<
        'a,
    >)
        ensures
            d@ == (DocView::IfBreak {
                when_break: Box::new(when_break@),
                when_flat: Box::new(when_flat@),
                target_group,
            }),
    {
        Doc::IfBreak {
            when_break: Box::new(when_break),
            when_flat: Box::new(when_flat),
            target_group,
        }
    }

    /// `doc`, held back until the next newline.
    pub fn line_suffix(doc: Doc<'a>) -> (d: Doc<'a>)
        ensures
            d@ == DocView::LineSuffix(Box::new(doc@)),
    {
        Doc::LineSuffix(Box::new(doc))
    }

    /// A mark that breaks every enclosing group.
    pub fn break_parent() -> (d: Doc<'a>)
        ensures
            d@ == DocView::BreakParent,
    {
        Doc::BreakParent
    }

    /// Contents and separators in turn, each separator broken only where the
    /// next content does not fit.
    pub fn fill(items: Vec<Doc<'a>>) -> (d: Doc<'a>)
        ensures
            d@ == DocView::Fill(docs_view(items@)),
    {
        Doc::Fill(items)
    }

    /// A mark that erases the blanks that end the current line.
    pub fn trim() -> (d: Doc<'a>)
        ensures
            d@ == DocView::Trim,
    {
        Doc::Trim
    }
}

/// The handles of groups, issued in order.
#[derive(Clone, Copy, Debug, PartialEq, Eq)]
pub struct GroupIds {
    next: u32,
}

impl GroupIds {
    /// The number of handles issued so far.
    pub closed spec fn issued(self) -> nat {
        self.next as nat
    }

    /// An issuer that has issued no handle yet.
    pub fn new() -> (ids: GroupIds)
        ensures
            ids.issued() == 0,
    {
        GroupIds { next: 0 }
    }

    /// A handle that was not issued before, while one is left.
    pub fn fresh(&mut self) -> (id: Option<u32>)
        ensures
            old(self).issued() < u32::MAX ==> id == Some(old(self).issued() as u32)
                && final(self).issued() == old(self).issued() + 1,
            old(self).issued() >= u32::MAX ==> id is None && final(self).issued() == old(
                self,
            ).issued(),
    {
        if self.next < u32::MAX {
            let id = self.next;
            self.next = self.next + 1;
            Some(id)
        } else {
            None
        }
    }
}

/// A size of a document: one for each node, the length of each text, the
/// columns that each indentation adds when a tab stop is `tab` columns wide,
/// and one more for each item of a fill. Every step of the printer and of the
/// width check lowers the total weight of the work that is left.
pub open spec fn weight(doc: DocView, tab: nat) -> nat
    decreases doc,
{
    match doc {
        DocView::Text(s) => 1 + s.len(),
        DocView::Concat(docs) => 1 + docs_weight(docs, tab),
        DocView::Line(_) => 1,
        DocView::Indent(d) => 1 + tab + weight(*d, tab),
        DocView::Align(n, d) => 1 + n + weight(*d, tab),
        DocView::Group { contents, expanded_states, .. } => 1 + weight(*contents, tab) + (
        match expanded_states {
            Some(states) => docs_weight(states, tab),
            None => 0,
        }),
        DocView::IfBreak { when_break, when_flat, .. } => 1 + weight(*when_break, tab) + weight(
            *when_flat,
            tab,
        ),
        DocView::LineSuffix(d) => 1 + weight(*d, tab),
        DocView::BreakParent => 1,
        DocView::Fill(docs) => 1 + docs.len() + docs_weight(docs, tab),
        DocView::Trim => 1,
    }
}

/// The sum of the weights of a sequence of documents.
pub open spec fn docs_weight(docs: Seq<DocView>, tab: nat) -> nat
    decreases docs,
{
    if docs.len() == 0 {
        0
    } else {
        weight(docs.first(), tab) + docs_weight(docs.drop_first(), tab)
    }
}

/// What the view of a sequence of documents holds.
pub broadcast proof fn lemma_docs_view<'a>(docs: Seq<Doc<'a>>)
    ensures
        #![trigger docs_view(docs)]
        docs_view(docs).len() == docs.len(),
        forall|i: int| 0 <= i < docs.len() ==> #[trigger] docs_view(docs)[i] == doc_view(docs[i]),
{
    reveal_with_fuel(docs_view, 2);
}

} // verus!
