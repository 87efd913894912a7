//! The vocabulary shared by the width check and the printer: modes,
//! indentation, commands, and the measure that bounds the work left.

use crate::doc::{doc_view, docs_view, docs_weight, lemma_docs_view, weight, Doc, DocView};
use std::collections::HashMap;
use vstd::prelude::*;
use vstd::std_specs::iter::IteratorSpec;

verus! {

/// How the lines of a group are rendered.
#[derive(Clone, Copy, Debug, PartialEq, Eq, Structural)]
pub enum Mode {
    /// No soft line of the group breaks.
    Flat,
    /// Every soft line of the group breaks.
    Break,
}

/// Indentation as a structured width: whole tab stops, then single columns.
pub struct Indentation {
    pub stops: nat,
    pub columns: nat,
}

impl Indentation {
    /// No indentation.
    pub open spec fn root() -> Indentation {
        Indentation { stops: 0, columns: 0 }
    }

    /// One tab stop more.
    pub open spec fn deeper(self) -> Indentation {
        Indentation { stops: self.stops + 1, columns: self.columns }
    }

    /// `n` columns more.
    pub open spec fn aligned(self, n: nat) -> Indentation {
        Indentation { stops: self.stops, columns: self.columns + n }
    }

    /// The columns that this indentation takes when a tab stop is `tab` wide.
    pub open spec fn width(self, tab: nat) -> nat {
        self.stops * tab + self.columns
    }
}

/// The executable form of [`Indentation`].
#[derive(Clone, Copy, Debug, PartialEq, Eq)]
pub struct Indent {
    pub stops: usize,
    pub columns: usize,
}

impl View for Indent {
    type V = Indentation;

    open spec fn view(&self) -> Indentation {
        Indentation { stops: self.stops as nat, columns: self.columns as nat }
    }
}

/// One unit of work: a document to render at an indentation in a mode.
pub struct Command {
    pub indent: Indentation,
    pub mode: Mode,
    pub doc: DocView,
}

/// A fill without its first `n` items; any other document unchanged.
pub open spec fn skip_items(doc: DocView, n: nat) -> DocView {
    match doc {
        DocView::Fill(items) => DocView::Fill(items.skip(n as int)),
        _ => doc,
    }
}

/// Skipping no item changes nothing.
pub proof fn lemma_skip_none(doc: DocView)
    ensures
        skip_items(doc, 0) == doc,
{
    match doc {
        DocView::Fill(items) => {
            assert(items.skip(0) =~= items);
        },
        _ => {},
    }
}

/// The executable form of [`Command`]. It borrows its document; `skip` counts
/// the leading items of a fill that are already printed.
#[derive(Clone, Copy, Debug)]
pub struct Cmd<'d, 'a> {
    pub indent: Indent,
    pub mode: Mode,
    pub doc: &'d Doc<'a>,
    pub skip: usize,
}

impl<'d, 'a> Cmd<'d, 'a> {
    /// `skip` stays within the items of a fill and is zero for anything else.
    pub open spec fn wf(self) -> bool {
        match doc_view(*self.doc) {
            DocView::Fill(items) => self.skip <= items.len(),
            _ => self.skip == 0,
        }
    }
}

impl<'d, 'a> View for Cmd<'d, 'a> {
    type V = Command;

    open spec fn view(&self) -> Command {
        Command {
            indent: self.indent@,
            mode: self.mode,
            doc: skip_items(doc_view(*self.doc), self.skip as nat),
        }
    }
}

/// The views of a stack of commands, bottom first.
pub open spec fn cmds_view<'d, 'a>(cmds: Seq<Cmd<'d, 'a>>) -> Seq<Command> {
    Seq::new(cmds.len(), |i: int| cmds[i]@)
}

/// Every command of the stack is well formed.
pub open spec fn cmds_wf<'d, 'a>(cmds: Seq<Cmd<'d, 'a>>) -> bool {
    forall|i: int| 0 <= i < cmds.len() ==> (#[trigger] cmds[i]).wf()
}

/// The commands for the documents `docs`, stacked so that the first document
/// is on top.
pub open spec fn children(docs: Seq<DocView>, indent: Indentation, mode: Mode) -> Seq<Command> {
    Seq::new(docs.len(), |i: int| Command { indent, mode, doc: docs[docs.len() - 1 - i] })
}

/// The total weight of the documents on a stack.
pub open spec fn stack_weight(cmds: Seq<Command>, tab: nat) -> nat
    decreases cmds.len(),
{
    if cmds.len() == 0 {
        0
    } else {
        stack_weight(cmds.drop_last(), tab) + weight(cmds.last().doc, tab)
    }
}

/// What the printer needs of the options: the widths, the kind of
/// indentation, and the characters of one line break.
pub struct Layout {
    pub print_width: nat,
    pub tab_width: nat,
    pub use_tabs: bool,
    pub newline: Seq<char>,
}

/// The characters that indent a line.
pub open spec fn indent_text(indent: Indentation, layout: Layout) -> Seq<char> {
    if layout.use_tabs {
        repeated('\t', indent.stops) + repeated(' ', indent.columns)
    } else {
        repeated(' ', indent.width(layout.tab_width))
    }
}

/// The group that decides an `IfBreak`: the one it names, flat while that
/// group has no mode yet, or else the mode it is rendered in.
pub open spec fn deciding_mode(target: Option<u32>, own: Mode, modes: Map<u32, Mode>) -> Mode {
    match target {
        Some(id) => if modes.contains_key(id) {
            modes[id]
        } else {
            Mode::Flat
        },
        None => own,
    }
}

/// Space and tab are the blanks that `Trim` erases.
pub open spec fn is_blank(c: char) -> bool {
    c == ' ' || c == '\t'
}

/// The length of the run of blanks that ends `text`, continuing a run of
/// `carry` blanks before it where `text` is all blanks.
pub open spec fn blank_run(text: Seq<char>, carry: nat) -> nat
    decreases text.len(),
{
    if text.len() == 0 {
        carry
    } else if is_blank(text.last()) {
        blank_run(text.drop_last(), carry) + 1
    } else {
        0
    }
}

/// `text` with each line feed replaced by `newline`.
pub open spec fn normalized(text: Seq<char>, newline: Seq<char>) -> Seq<char>
    decreases text.len(),
{
    if text.len() == 0 {
        Seq::empty()
    } else if text.last() == '\n' {
        normalized(text.drop_last(), newline) + newline
    } else {
        normalized(text.drop_last(), newline).push(text.last())
    }
}

/// `n` copies of `c`.
pub open spec fn repeated(c: char, n: nat) -> Seq<char> {
    Seq::new(n, |i: int| c)
}

/// A push adds the weight of the command to the weight of the stack.
pub proof fn lemma_stack_weight_push(cmds: Seq<Command>, c: Command, tab: nat)
    ensures
        stack_weight(cmds.push(c), tab) == stack_weight(cmds, tab) + weight(c.doc, tab),
{
    assert(cmds.push(c).drop_last() =~= cmds);
}

/// The weight of two stacks, one on the other, is the sum of their weights.
pub proof fn lemma_stack_weight_add(a: Seq<Command>, b: Seq<Command>, tab: nat)
    ensures
        stack_weight(a + b, tab) == stack_weight(a, tab) + stack_weight(b, tab),
    decreases b.len(),
{
    if b.len() == 0 {
        assert(a + b =~= a);
    } else {
        assert((a + b).drop_last() =~= a + b.drop_last());
        lemma_stack_weight_add(a, b.drop_last(), tab);
    }
}

/// The commands of a run of documents weigh what the documents weigh.
pub proof fn lemma_children_weight(docs: Seq<DocView>, indent: Indentation, mode: Mode, tab: nat)
    ensures
        stack_weight(children(docs, indent, mode), tab) == docs_weight(docs, tab),
    decreases docs.len(),
{
    if docs.len() > 0 {
        let c = children(docs, indent, mode);
        assert(c.drop_last() =~= children(docs.drop_first(), indent, mode));
        lemma_children_weight(docs.drop_first(), indent, mode, tab);
    }
}

/// A stack weighs the same in either order.
pub proof fn lemma_reverse_weight(cmds: Seq<Command>, tab: nat)
    ensures
        stack_weight(cmds.reverse(), tab) == stack_weight(cmds, tab),
    decreases cmds.len(),
{
    if cmds.len() > 0 {
        let r = cmds.reverse();
        assert(r.drop_last() =~= cmds.drop_first().reverse());
        lemma_reverse_weight(cmds.drop_first(), tab);
        assert(cmds =~= seq![cmds.first()] + cmds.drop_first());
        lemma_stack_weight_add(seq![cmds.first()], cmds.drop_first(), tab);
        lemma_stack_weight_push(Seq::empty(), cmds.first(), tab);
        assert(Seq::<Command>::empty().push(cmds.first()) =~= seq![cmds.first()]);
    }
}

/// The weight of a slice of a stack is at most the weight of the stack.
pub proof fn lemma_stack_weight_take(cmds: Seq<Command>, n: int, tab: nat)
    requires
        0 <= n <= cmds.len(),
    ensures
        stack_weight(cmds.take(n), tab) <= stack_weight(cmds, tab),
        n > 0 ==> stack_weight(cmds.take(n), tab) == stack_weight(cmds.take(n - 1), tab) + weight(
            cmds[n - 1].doc,
            tab,
        ),
    decreases cmds.len() - n,
{
    if n > 0 {
        assert(cmds.take(n).drop_last() =~= cmds.take(n - 1));
    }
    if n < cmds.len() {
        lemma_stack_weight_take(cmds, n + 1, tab);
        assert(cmds.take(n + 1).drop_last() =~= cmds.take(n));
    } else {
        assert(cmds.take(n) =~= cmds);
    }
}

/// The first two items of a fill weigh what the fill weighs beyond the rest.
pub proof fn lemma_docs_weight_skip2(docs: Seq<DocView>, tab: nat)
    requires
        docs.len() >= 2,
    ensures
        docs_weight(docs, tab) == weight(docs[0], tab) + weight(docs[1], tab) + docs_weight(
            docs.skip(2),
            tab,
        ),
{
    assert(docs.drop_first().drop_first() =~= docs.skip(2));
    assert(docs_weight(docs, tab) == weight(docs.first(), tab) + docs_weight(
        docs.drop_first(),
        tab,
    ));
    assert(docs_weight(docs.drop_first(), tab) == weight(docs.drop_first().first(), tab)
        + docs_weight(docs.drop_first().drop_first(), tab));
}

/// No item of a sequence weighs more than the sequence.
pub proof fn lemma_docs_weight_index(docs: Seq<DocView>, i: int, tab: nat)
    requires
        0 <= i < docs.len(),
    ensures
        weight(docs[i], tab) <= docs_weight(docs, tab),
    decreases docs.len(),
{
    if i > 0 {
        lemma_docs_weight_index(docs.drop_first(), i - 1, tab);
    }
}

/// Executable form of [`blank_run`].
pub fn blank_run_of(text: &str, carry: usize) -> (run: usize)
    requires
        carry + text@.len() <= usize::MAX,
    ensures
        run == blank_run(text@, carry as nat),
        run <= carry + text@.len(),
{
    broadcast use vstd::string::group_string_axioms;

    let mut it = text.chars();
    let mut run = carry;
    let ghost mut seen: Seq<char> = Seq::empty();
    assert(seen + it.remaining() =~= text@);
    loop
        invariant
            seen + it.remaining() == text@,
            run == blank_run(seen, carry as nat),
            run <= carry + seen.len(),
            carry + text@.len() <= usize::MAX,
        decreases text@.len() - seen.len(),
    {
        let ghost before = it.remaining();
        match it.next() {
            Some(c) => {
                proof {
                    assert(seen.push(c).drop_last() =~= seen);
                    assert(seen.push(c) + before.drop_first() =~= seen + before);
                    seen = seen.push(c);
                }
                if c == ' ' || c == '\t' {
                    run = run + 1;
                } else {
                    run = 0;
                }
            },
            None => {
                assert(seen =~= text@);
                return run;
            },
        }
    }
}

/// Executable form of [`deciding_mode`].
pub fn lookup_mode(target: &Option<u32>, own: Mode, modes: &HashMap<u32, Mode>) -> (m: Mode)
    ensures
        m == deciding_mode(*target, own, modes@),
{
    broadcast use vstd::std_specs::hash::group_hash_axioms;

    match target {
        Some(id) => match modes.get(id) {
            Some(m) => *m,
            None => Mode::Flat,
        },
        None => own,
    }
}

/// The command that renders all of `doc`.
pub fn whole<'d, 'a>(indent: Indent, mode: Mode, doc: &'d Doc<'a>) -> (c: Cmd<'d, 'a>)
    ensures
        c.wf(),
        c@ == (Command { indent: indent@, mode, doc: doc@ }),
        c.doc == doc,
{
    proof {
        lemma_skip_none(doc_view(*doc));
    }
    Cmd { indent, mode, doc, skip: 0 }
}

/// Stacks the documents `docs[from..]` so that `docs[from]` is on top.
pub fn push_children<'d, 'a>(
    cmds: &mut Vec<Cmd<'d, 'a>>,
    docs: &'d Vec<Doc<'a>>,
    from: usize,
    indent: Indent,
    mode: Mode,
)
    requires
        from <= docs.len(),
        cmds_wf(old(cmds)@),
    ensures
        cmds_wf(final(cmds)@),
        cmds_view(final(cmds)@) == cmds_view(old(cmds)@) + children(
            docs_view(docs@).skip(from as int),
            indent@,
            mode,
        ),
{
    broadcast use lemma_docs_view;

    let ghost start = cmds@;
    let ghost all = children(docs_view(docs@).skip(from as int), indent@, mode);
    let mut i = docs.len();
    assert(cmds_view(cmds@) =~= cmds_view(start) + all.take(0));
    while i > from
        invariant
            from <= i <= docs.len(),
            cmds_wf(cmds@),
            all == children(docs_view(docs@).skip(from as int), indent@, mode),
            cmds_view(cmds@) == cmds_view(start) + all.take(docs.len() - i),
        decreases i,
    {
        i = i - 1;
        let ghost before = cmds@;
        let c = Cmd { indent, mode, doc: &docs[i], skip: 0 };
        cmds.push(c);
        proof {
            assert(doc_view(docs@[i as int]) == docs_view(docs@)[i as int]);
            lemma_skip_none(doc_view(docs@[i as int]));
            assert(c@.doc == doc_view(docs@[i as int]));
            assert(all[docs.len() - 1 - i] == c@);
            assert(cmds_view(cmds@) =~= cmds_view(before).push(c@));
            assert(all.take(docs.len() - i) =~= all.take(docs.len() - 1 - i).push(c@));
            assert(forall|k: int| 0 <= k < cmds@.len() ==> (#[trigger] cmds@[k]).wf()) by {
                assert forall|k: int| 0 <= k < cmds@.len() implies (#[trigger] cmds@[k]).wf() by {
                    if k < before.len() {
                        assert(cmds@[k] == before[k]);
                    }
                }
            }
        }
    }
    assert(all.take(docs.len() - from) =~= all);
}

} // verus!
