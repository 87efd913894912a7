//! Flat rendering: the width and the text of a document that is written on
//! one line, and what the width check and the printer make of such a
//! document.

use crate::doc::{DocView, LineKind};
use crate::fits::{
    fit_measure, fit_step, fits, fits_from, lemma_fit_step_decreases, FitState, FitStep,
};
use crate::layout::{children, deciding_mode, normalized, Command, Indentation, Layout, Mode};
use crate::machine::{flat, lemma_step_decreases, measure, step, Machine};
use vstd::prelude::*;

verus! {

/// A document whose flat rendering is one line of a width that no earlier
/// text can change: it holds no `Trim`, no hard or literal line and no group
/// that is marked broken.
pub open spec fn plain(doc: DocView) -> bool
    decreases doc,
{
    match doc {
        DocView::Text(_) => true,
        DocView::BreakParent => true,
        DocView::LineSuffix(_) => true,
        DocView::Trim => false,
        DocView::Line(kind) => !kind.forced(),
        DocView::Concat(docs) => all_plain(docs),
        DocView::Fill(docs) => all_plain(docs),
        DocView::Indent(d) => plain(*d),
        DocView::Align(_, d) => plain(*d),
        DocView::Group { contents, should_break, .. } => !should_break && plain(*contents),
        DocView::IfBreak { when_break, when_flat, .. } => plain(*when_break) && plain(*when_flat),
    }
}

/// Every one of `docs` is [`plain`].
pub open spec fn all_plain(docs: Seq<DocView>) -> bool
    decreases docs,
{
    docs.len() == 0 || (plain(docs.first()) && all_plain(docs.drop_first()))
}

/// The width of the flat rendering of a plain document: the characters of
/// its texts and one space for each soft line. A line suffix takes no room
/// on its line, and an `IfBreak` counts the branch that its deciding group
/// selects.
pub open spec fn flat_width(doc: DocView, modes: Map<u32, Mode>) -> nat
    decreases doc,
{
    match doc {
        DocView::Text(t) => t.len(),
        DocView::BreakParent => 0,
        DocView::LineSuffix(_) => 0,
        DocView::Trim => 0,
        DocView::Line(kind) => if kind == LineKind::Soft {
            1
        } else {
            0
        },
        DocView::Concat(docs) => docs_flat_width(docs, modes),
        DocView::Fill(docs) => docs_flat_width(docs, modes),
        DocView::Indent(d) => flat_width(*d, modes),
        DocView::Align(_, d) => flat_width(*d, modes),
        DocView::Group { contents, .. } => flat_width(*contents, modes),
        DocView::IfBreak { when_break, when_flat, target_group } => if deciding_mode(
            target_group,
            Mode::Flat,
            modes,
        ) == Mode::Break {
            flat_width(*when_break, modes)
        } else {
            flat_width(*when_flat, modes)
        },
    }
}

/// The sum of the flat widths of `docs`.
pub open spec fn docs_flat_width(docs: Seq<DocView>, modes: Map<u32, Mode>) -> nat
    decreases docs,
{
    if docs.len() == 0 {
        0
    } else {
        flat_width(docs.first(), modes) + docs_flat_width(docs.drop_first(), modes)
    }
}

/// The sum of the flat widths of the documents on a stack.
pub open spec fn stack_flat_width(cmds: Seq<Command>, modes: Map<u32, Mode>) -> nat
    decreases cmds.len(),
{
    if cmds.len() == 0 {
        0
    } else {
        stack_flat_width(cmds.drop_last(), modes) + flat_width(cmds.last().doc, modes)
    }
}

/// Every command of the stack is flat and holds a plain document.
pub open spec fn plain_stack(cmds: Seq<Command>) -> bool {
    forall|i: int| 0 <= i < cmds.len() ==> (#[trigger] cmds[i]).mode == Mode::Flat && plain(cmds[i].doc)
}

/// A push of a plain flat command keeps the stack plain and adds the flat
/// width of the command.
pub proof fn lemma_width_push(cmds: Seq<Command>, c: Command, modes: Map<u32, Mode>)
    requires
        plain_stack(cmds),
        c.mode == Mode::Flat,
        plain(c.doc),
    ensures
        plain_stack(cmds.push(c)),
        stack_flat_width(cmds.push(c), modes) == stack_flat_width(cmds, modes) + flat_width(
            c.doc,
            modes,
        ),
{
    assert(cmds.push(c).drop_last() =~= cmds);
    assert forall|i: int| 0 <= i < cmds.push(c).len() implies (#[trigger] cmds.push(c)[i]).mode
        == Mode::Flat && plain(cmds.push(c)[i].doc) by {
        if i < cmds.len() {
            assert(cmds.push(c)[i] == cmds[i]);
        }
    }
}

/// The flat commands of a run of plain documents are plain and as wide as
/// the run.
pub proof fn lemma_width_children(
    below: Seq<Command>,
    docs: Seq<DocView>,
    indent: Indentation,
    modes: Map<u32, Mode>,
)
    requires
        plain_stack(below),
        all_plain(docs),
    ensures
        plain_stack(below + children(docs, indent, Mode::Flat)),
        stack_flat_width(below + children(docs, indent, Mode::Flat), modes) == stack_flat_width(
            below,
            modes,
        ) + docs_flat_width(docs, modes),
    decreases docs.len(),
{
    let all = below + children(docs, indent, Mode::Flat);
    if docs.len() == 0 {
        assert(all =~= below);
    } else {
        let rest = below + children(docs.drop_first(), indent, Mode::Flat);
        let top = Command { indent, mode: Mode::Flat, doc: docs.first() };
        lemma_width_children(below, docs.drop_first(), indent, modes);
        assert(all =~= rest.push(top));
        lemma_width_push(rest, top, modes);
    }
}

/// For plain flat commands, the width check accepts only what is at most as
/// wide as the columns that are left; with nothing after the commands, it
/// accepts all of that.
pub proof fn lemma_fits_is_width(
    s: FitState,
    rest: Seq<Command>,
    must_be_flat: bool,
    modes: Map<u32, Mode>,
)
    requires
        plain_stack(s.cmds),
    ensures
        fits_from(s, rest, must_be_flat, modes) ==> s.width >= 0 && stack_flat_width(s.cmds, modes)
            <= s.width,
        s.rest_len == 0 && s.width >= 0 && stack_flat_width(s.cmds, modes) <= s.width ==> fits_from(
            s,
            rest,
            must_be_flat,
            modes,
        ),
    decreases fit_measure(s, rest),
{
    lemma_fit_step_decreases(s, rest, must_be_flat, modes);
    if s.width >= 0 && s.cmds.len() > 0 {
        let c = s.cmds.last();
        let below = s.cmds.drop_last();
        assert(c.mode == Mode::Flat && plain(c.doc));
        assert(plain_stack(below)) by {
            assert forall|i: int| 0 <= i < below.len() implies (#[trigger] below[i]).mode
                == Mode::Flat && plain(below[i].doc) by {
                assert(below[i] == s.cmds[i]);
            }
        }
        match c.doc {
            DocView::Concat(docs) => {
                lemma_width_children(below, docs, c.indent, modes);
            },
            DocView::Fill(docs) => {
                lemma_width_children(below, docs, c.indent, modes);
            },
            DocView::Indent(d) => {
                lemma_width_push(below, Command { doc: *d, ..c }, modes);
            },
            DocView::Align(_, d) => {
                lemma_width_push(below, Command { doc: *d, ..c }, modes);
            },
            DocView::Group { contents, .. } => {
                lemma_width_push(below, Command { mode: c.mode, doc: *contents, ..c }, modes);
            },
            DocView::IfBreak { when_break, when_flat, target_group } => {
                lemma_width_push(below, Command { doc: *when_break, ..c }, modes);
                lemma_width_push(below, Command { doc: *when_flat, ..c }, modes);
            },
            _ => {},
        }
        match fit_step(s, rest, must_be_flat, modes) {
            FitStep::Next(n) => {
                lemma_fits_is_width(n, rest, must_be_flat, modes);
            },
            FitStep::Done(_) => {},
        }
    }
}

/// A plain document that the printer renders flat without a further choice:
/// it holds no group, no fill and no line suffix.
pub open spec fn linear(doc: DocView) -> bool
    decreases doc,
{
    match doc {
        DocView::Text(_) => true,
        DocView::BreakParent => true,
        DocView::Line(kind) => !kind.forced(),
        DocView::Concat(docs) => all_linear(docs),
        DocView::Indent(d) => linear(*d),
        DocView::Align(_, d) => linear(*d),
        DocView::IfBreak { when_break, when_flat, .. } => linear(*when_break) && linear(*when_flat),
        DocView::LineSuffix(_) => false,
        DocView::Trim => false,
        DocView::Fill(_) => false,
        DocView::Group { .. } => false,
    }
}

/// Every one of `docs` is [`linear`].
pub open spec fn all_linear(docs: Seq<DocView>) -> bool
    decreases docs,
{
    docs.len() == 0 || (linear(docs.first()) && all_linear(docs.drop_first()))
}

/// The text of the flat rendering of a document: its texts, with
/// their line feeds written as `newline`, and one space for each soft line.
pub open spec fn flat_text(doc: DocView, modes: Map<u32, Mode>, newline: Seq<char>) -> Seq<char>
    decreases doc,
{
    match doc {
        DocView::Text(t) => normalized(t, newline),
        DocView::Line(kind) => if kind == LineKind::Soft {
            seq![' ']
        } else {
            Seq::empty()
        },
        DocView::Concat(docs) => docs_flat_text(docs, modes, newline),
        DocView::Indent(d) => flat_text(*d, modes, newline),
        DocView::Align(_, d) => flat_text(*d, modes, newline),
        DocView::Group { contents, .. } => flat_text(*contents, modes, newline),
        DocView::IfBreak { when_break, when_flat, target_group } => if deciding_mode(
            target_group,
            Mode::Flat,
            modes,
        ) == Mode::Break {
            flat_text(*when_break, modes, newline)
        } else {
            flat_text(*when_flat, modes, newline)
        },
        _ => Seq::empty(),
    }
}

/// The flat texts of `docs`, one after the other.
pub open spec fn docs_flat_text(docs: Seq<DocView>, modes: Map<u32, Mode>, newline: Seq<char>) -> Seq<
    char,
>
    decreases docs,
{
    if docs.len() == 0 {
        Seq::empty()
    } else {
        flat_text(docs.first(), modes, newline) + docs_flat_text(docs.drop_first(), modes, newline)
    }
}

/// The flat texts of the documents on a stack, the top first.
pub open spec fn stack_flat_text(cmds: Seq<Command>, modes: Map<u32, Mode>, newline: Seq<char>) -> Seq<
    char,
>
    decreases cmds.len(),
{
    if cmds.len() == 0 {
        Seq::empty()
    } else {
        flat_text(cmds.last().doc, modes, newline) + stack_flat_text(
            cmds.drop_last(),
            modes,
            newline,
        )
    }
}

/// Every command of the stack is flat and holds a linear document.
pub open spec fn linear_stack(cmds: Seq<Command>) -> bool {
    forall|i: int|
        0 <= i < cmds.len() ==> (#[trigger] cmds[i]).mode == Mode::Flat && linear(cmds[i].doc)
}

/// The state in which the printer is once its stack is down to `height`
/// commands.
pub open spec fn run_until(m: Machine, layout: Layout, height: nat) -> Machine
    decreases measure(m, layout.tab_width),
{
    if m.cmds.len() <= height {
        m
    } else {
        proof {
            lemma_step_decreases(m, layout);
        }
        run_until(step(m, layout), layout, height)
    }
}

/// A push of a linear flat command keeps the stack linear, puts the flat
/// text of the command first and adds its flat width.
pub proof fn lemma_linear_push(
    cmds: Seq<Command>,
    c: Command,
    modes: Map<u32, Mode>,
    newline: Seq<char>,
)
    requires
        linear_stack(cmds),
        c.mode == Mode::Flat,
        linear(c.doc),
    ensures
        linear_stack(cmds.push(c)),
        stack_flat_text(cmds.push(c), modes, newline) == flat_text(c.doc, modes, newline)
            + stack_flat_text(cmds, modes, newline),
        stack_flat_width(cmds.push(c), modes) == stack_flat_width(cmds, modes) + flat_width(
            c.doc,
            modes,
        ),
{
    assert(cmds.push(c).drop_last() =~= cmds);
    assert forall|i: int| 0 <= i < cmds.push(c).len() implies (#[trigger] cmds.push(c)[i]).mode
        == Mode::Flat && linear(cmds.push(c)[i].doc) by {
        if i < cmds.len() {
            assert(cmds.push(c)[i] == cmds[i]);
        }
    }
}

/// The flat commands of a run of linear documents are linear; their text is
/// the text of the run, and their width its width.
pub proof fn lemma_linear_children(
    below: Seq<Command>,
    docs: Seq<DocView>,
    indent: Indentation,
    modes: Map<u32, Mode>,
    newline: Seq<char>,
)
    requires
        linear_stack(below),
        all_linear(docs),
    ensures
        linear_stack(below + children(docs, indent, Mode::Flat)),
        stack_flat_text(below + children(docs, indent, Mode::Flat), modes, newline)
            == docs_flat_text(docs, modes, newline) + stack_flat_text(below, modes, newline),
        stack_flat_width(below + children(docs, indent, Mode::Flat), modes) == stack_flat_width(
            below,
            modes,
        ) + docs_flat_width(docs, modes),
    decreases docs.len(),
{
    let all = below + children(docs, indent, Mode::Flat);
    if docs.len() == 0 {
        assert(all =~= below);
        assert(docs_flat_text(docs, modes, newline) + stack_flat_text(below, modes, newline)
            =~= stack_flat_text(below, modes, newline));
    } else {
        let rest = below + children(docs.drop_first(), indent, Mode::Flat);
        let top = Command { indent, mode: Mode::Flat, doc: docs.first() };
        lemma_linear_children(below, docs.drop_first(), indent, modes, newline);
        assert(all =~= rest.push(top));
        lemma_linear_push(rest, top, modes, newline);
        assert(stack_flat_text(all, modes, newline) =~= docs_flat_text(docs, modes, newline)
            + stack_flat_text(below, modes, newline));
    }
}

/// The printer writes linear flat commands on the current line: once the
/// stack is down to what lay under them, their flat text is out, the column
/// has advanced by their flat width, and nothing else has changed.
pub proof fn lemma_linear_run(m: Machine, layout: Layout, base: Seq<Command>, region: Seq<Command>)
    requires
        m.cmds == base + region,
        linear_stack(region),
    ensures
        run_until(m, layout, base.len()) == (Machine {
            out: m.out + stack_flat_text(region, m.modes, layout.newline),
            column: m.column + stack_flat_width(region, m.modes),
            cmds: base,
            ..m
        }),
    decreases measure(m, layout.tab_width),
{
    let text = stack_flat_text(region, m.modes, layout.newline);
    if region.len() == 0 {
        assert(m.cmds =~= base);
        assert(m.out + text =~= m.out);
    } else {
        lemma_step_decreases(m, layout);
        let c = region.last();
        let under = region.drop_last();
        let next = step(m, layout);
        assert(m.cmds.last() == c);
        assert(m.cmds.drop_last() =~= base + under);
        assert(c.mode == Mode::Flat && linear(c.doc));
        assert(linear_stack(under)) by {
            assert forall|i: int| 0 <= i < under.len() implies (#[trigger] under[i]).mode
                == Mode::Flat && linear(under[i].doc) by {
                assert(under[i] == region[i]);
            }
        }
        let grown: Seq<Command> = match c.doc {
            DocView::Concat(docs) => under + children(docs, c.indent, Mode::Flat),
            DocView::Indent(d) => under.push(Command { indent: c.indent.deeper(), doc: *d, ..c }),
            DocView::Align(n, d) => under.push(
                Command { indent: c.indent.aligned(n), doc: *d, ..c },
            ),
            DocView::IfBreak { when_break, when_flat, target_group } => under.push(
                Command {
                    doc: if deciding_mode(target_group, Mode::Flat, m.modes) == Mode::Break {
                        *when_break
                    } else {
                        *when_flat
                    },
                    ..c
                },
            ),
            _ => under,
        };
        match c.doc {
            DocView::Concat(docs) => {
                lemma_linear_children(under, docs, c.indent, m.modes, layout.newline);
                assert(base + under + children(docs, c.indent, Mode::Flat) =~= base + grown);
            },
            DocView::Indent(d) => {
                lemma_linear_push(
                    under,
                    Command { indent: c.indent.deeper(), doc: *d, ..c },
                    m.modes,
                    layout.newline,
                );
                assert((base + under).push(Command { indent: c.indent.deeper(), doc: *d, ..c })
                    =~= base + grown);
            },
            DocView::Align(n, d) => {
                lemma_linear_push(
                    under,
                    Command { indent: c.indent.aligned(n), doc: *d, ..c },
                    m.modes,
                    layout.newline,
                );
                assert((base + under).push(Command { indent: c.indent.aligned(n), doc: *d, ..c })
                    =~= base + grown);
            },
            DocView::IfBreak { when_break, when_flat, target_group } => {
                let picked = Command {
                    doc: if deciding_mode(target_group, Mode::Flat, m.modes) == Mode::Break {
                        *when_break
                    } else {
                        *when_flat
                    },
                    ..c
                };
                lemma_linear_push(under, picked, m.modes, layout.newline);
                assert((base + under).push(picked) =~= base + grown);
            },
            _ => {},
        }
        assert(next.cmds =~= base + grown);
        assert(next.modes == m.modes);
        assert(next.suffixes == m.suffixes);
        lemma_linear_run(next, layout, base, grown);
        let after = stack_flat_text(grown, m.modes, layout.newline);
        assert(next.out + after =~= m.out + text);
        assert(next.column + stack_flat_width(grown, m.modes) == m.column + stack_flat_width(
            region,
            m.modes,
        ));
    }
}

/// A linear document is plain.
pub proof fn lemma_linear_is_plain(doc: DocView)
    requires
        linear(doc),
    ensures
        plain(doc),
    decreases doc,
{
    match doc {
        DocView::Concat(docs) => {
            lemma_all_linear_is_plain(docs);
        },
        DocView::Indent(d) => {
            lemma_linear_is_plain(*d);
        },
        DocView::Align(_, d) => {
            lemma_linear_is_plain(*d);
        },
        DocView::IfBreak { when_break, when_flat, .. } => {
            lemma_linear_is_plain(*when_break);
            lemma_linear_is_plain(*when_flat);
        },
        _ => {},
    }
}

/// Inline documents are plain.
pub proof fn lemma_all_linear_is_plain(docs: Seq<DocView>)
    requires
        all_linear(docs),
    ensures
        all_plain(docs),
    decreases docs,
{
    if docs.len() > 0 {
        lemma_linear_is_plain(docs.first());
        lemma_all_linear_is_plain(docs.drop_first());
    }
}

/// Two stacks hold the same documents in the same modes; their indentation
/// may differ.
pub open spec fn same_shape(a: Seq<Command>, b: Seq<Command>) -> bool {
    &&& a.len() == b.len()
    &&& forall|i: int| 0 <= i < a.len() ==> (#[trigger] a[i]).mode == b[i].mode && a[i].doc == b[i].doc
}

/// The width check reads no indentation.
pub proof fn lemma_fits_same_shape(
    s1: FitState,
    s2: FitState,
    rest1: Seq<Command>,
    rest2: Seq<Command>,
    must_be_flat: bool,
    modes: Map<u32, Mode>,
)
    requires
        same_shape(s1.cmds, s2.cmds),
        same_shape(rest1, rest2),
        s1.rest_len == s2.rest_len,
        s1.width == s2.width,
        s1.trailing == s2.trailing,
    ensures
        fits_from(s1, rest1, must_be_flat, modes) == fits_from(s2, rest2, must_be_flat, modes),
    decreases fit_measure(s1, rest1),
{
    lemma_fit_step_decreases(s1, rest1, must_be_flat, modes);
    if s1.width >= 0 {
        if s1.cmds.len() == 0 {
            if 0 < s1.rest_len <= rest1.len() {
                let k = s1.rest_len - 1;
                assert(rest1[k].mode == rest2[k].mode && rest1[k].doc == rest2[k].doc);
            }
        } else {
            let c1 = s1.cmds.last();
            let c2 = s2.cmds.last();
            let b1 = s1.cmds.drop_last();
            let b2 = s2.cmds.drop_last();
            assert(c1.mode == c2.mode && c1.doc == c2.doc);
            assert(same_shape(b1, b2)) by {
                assert forall|i: int| 0 <= i < b1.len() implies (#[trigger] b1[i]).mode == b2[i].mode
                    && b1[i].doc == b2[i].doc by {
                    assert(b1[i] == s1.cmds[i]);
                    assert(b2[i] == s2.cmds[i]);
                }
            }
            match c1.doc {
                DocView::Concat(docs) => {
                    lemma_same_shape_children(b1, b2, docs, c1.indent, c2.indent, c1.mode);
                },
                DocView::Fill(docs) => {
                    lemma_same_shape_children(b1, b2, docs, c1.indent, c2.indent, c1.mode);
                },
                _ => {},
            }
        }
        match fit_step(s1, rest1, must_be_flat, modes) {
            FitStep::Next(n1) => {
                match fit_step(s2, rest2, must_be_flat, modes) {
                    FitStep::Next(n2) => {
                        assert(same_shape(n1.cmds, n2.cmds)) by {
                            if s1.cmds.len() > 0 {
                                let b1 = s1.cmds.drop_last();
                                let b2 = s2.cmds.drop_last();
                                assert forall|i: int| 0 <= i < n1.cmds.len() implies (
                                #[trigger] n1.cmds[i]).mode == n2.cmds[i].mode && n1.cmds[i].doc
                                    == n2.cmds[i].doc by {
                                    if i < b1.len() {
                                        assert(n1.cmds[i] == b1[i]);
                                        assert(n2.cmds[i] == b2[i]);
                                    }
                                }
                            }
                        }
                        lemma_fits_same_shape(n1, n2, rest1, rest2, must_be_flat, modes);
                    },
                    FitStep::Done(_) => {},
                }
            },
            FitStep::Done(_) => {},
        }
    }
}

/// The commands of a run of documents on stacks of the same shape give
/// stacks of the same shape.
pub proof fn lemma_same_shape_children(
    a: Seq<Command>,
    b: Seq<Command>,
    docs: Seq<DocView>,
    indent_a: Indentation,
    indent_b: Indentation,
    mode: Mode,
)
    requires
        same_shape(a, b),
    ensures
        same_shape(a + children(docs, indent_a, mode), b + children(docs, indent_b, mode)),
{
    let x = a + children(docs, indent_a, mode);
    let y = b + children(docs, indent_b, mode);
    assert forall|i: int| 0 <= i < x.len() implies (#[trigger] x[i]).mode == y[i].mode && x[i].doc
        == y[i].doc by {
        if i < a.len() {
            assert(x[i] == a[i]);
            assert(y[i] == b[i]);
        }
    }
}

/// The width check gives the same verdict whether the commands below a
/// point of the stack are counted to the commands that are measured or to
/// those that follow them.
pub proof fn lemma_fits_move(
    under: Seq<Command>,
    top: Seq<Command>,
    rest: Seq<Command>,
    width: int,
    trailing: nat,
    must_be_flat: bool,
    modes: Map<u32, Mode>,
)
    ensures
        fits_from(
            FitState { cmds: under + top, rest_len: rest.len(), width, trailing },
            rest,
            must_be_flat,
            modes,
        ) == fits_from(
            FitState { cmds: top, rest_len: rest.len() + under.len(), width, trailing },
            rest + under,
            must_be_flat,
            modes,
        ),
    decreases
        fit_measure(
            FitState { cmds: top, rest_len: rest.len() + under.len(), width, trailing },
            rest + under,
        ),
{
    let left = FitState { cmds: under + top, rest_len: rest.len(), width, trailing };
    let right = FitState { cmds: top, rest_len: rest.len() + under.len(), width, trailing };
    let all = rest + under;
    lemma_fit_step_decreases(right, all, must_be_flat, modes);
    if width >= 0 {
        if top.len() > 0 {
            let c = top.last();
            let below = top.drop_last();
            assert((under + top).last() == c);
            assert((under + top).drop_last() =~= under + below);
            match fit_step(right, all, must_be_flat, modes) {
                FitStep::Next(n) => {
                    assert(fit_step(left, rest, must_be_flat, modes) == FitStep::Next(
                        FitState { cmds: under + n.cmds, rest_len: rest.len(), ..n },
                    )) by {
                        match c.doc {
                            DocView::Concat(docs) => {
                                assert(under + below + children(docs, c.indent, c.mode) =~= under
                                    + (below + children(docs, c.indent, c.mode)));
                            },
                            DocView::Fill(docs) => {
                                assert(under + below + children(docs, c.indent, c.mode) =~= under
                                    + (below + children(docs, c.indent, c.mode)));
                            },
                            DocView::Indent(d) => {
                                assert((under + below).push(Command { doc: *d, ..c }) =~= under
                                    + below.push(Command { doc: *d, ..c }));
                            },
                            DocView::Align(_, d) => {
                                assert((under + below).push(Command { doc: *d, ..c }) =~= under
                                    + below.push(Command { doc: *d, ..c }));
                            },
                            DocView::Group { contents, should_break, .. } => {
                                let x = Command {
                                    mode: if should_break {
                                        Mode::Break
                                    } else {
                                        c.mode
                                    },
                                    doc: *contents,
                                    ..c
                                };
                                assert((under + below).push(x) =~= under + below.push(x));
                            },
                            DocView::IfBreak { when_break, when_flat, target_group } => {
                                let x = Command {
                                    doc: if deciding_mode(target_group, c.mode, modes)
                                        == Mode::Break {
                                        *when_break
                                    } else {
                                        *when_flat
                                    },
                                    ..c
                                };
                                assert((under + below).push(x) =~= under + below.push(x));
                            },
                            _ => {},
                        }
                    }
                    lemma_fits_move(under, n.cmds, rest, n.width, n.trailing, must_be_flat, modes);
                },
                FitStep::Done(_) => {},
            }
        } else if under.len() > 0 {
            let c = under.last();
            assert(all[all.len() - 1] == c);
            assert(under + top =~= under.drop_last() + seq![c]);
            assert(all =~= (rest + under.drop_last()).push(c));
            assert(fit_step(right, all, must_be_flat, modes) == FitStep::Next(
                FitState {
                    cmds: seq![c],
                    rest_len: (rest.len() + under.len() - 1) as nat,
                    width,
                    trailing,
                },
            ));
            assert(all.take(rest.len() + under.len() - 1) =~= (rest + under.drop_last()).take(
                rest.len() + under.len() - 1,
            ));
            lemma_fits_move(under.drop_last(), seq![c], rest, width, trailing, must_be_flat, modes);
            lemma_fits_longer_rest(
                FitState {
                    cmds: seq![c],
                    rest_len: (rest.len() + under.len() - 1) as nat,
                    width,
                    trailing,
                },
                rest + under.drop_last(),
                c,
                must_be_flat,
                modes,
            );
        } else {
            assert(under + top =~= top);
            assert(all =~= rest);
        }
    }
}

/// The width check reads of the commands that follow only those that it
/// was given to take.
pub proof fn lemma_fits_longer_rest(
    s: FitState,
    rest: Seq<Command>,
    more: Command,
    must_be_flat: bool,
    modes: Map<u32, Mode>,
)
    requires
        s.rest_len <= rest.len(),
    ensures
        fits_from(s, rest, must_be_flat, modes) == fits_from(s, rest.push(more), must_be_flat, modes),
    decreases fit_measure(s, rest),
{
    lemma_fit_step_decreases(s, rest, must_be_flat, modes);
    if s.width >= 0 {
        if s.cmds.len() == 0 && s.rest_len > 0 {
            assert(rest.push(more)[s.rest_len - 1] == rest[s.rest_len - 1]);
        }
        match fit_step(s, rest, must_be_flat, modes) {
            FitStep::Next(n) => {
                assert(fit_step(s, rest.push(more), must_be_flat, modes) == FitStep::Next(n));
                lemma_fits_longer_rest(n, rest, more, must_be_flat, modes);
            },
            FitStep::Done(_) => {},
        }
    }
}

/// A document in which the width check meets no `Trim`.
pub open spec fn trimless(doc: DocView) -> bool
    decreases doc,
{
    match doc {
        DocView::Trim => false,
        DocView::Concat(docs) => all_trimless(docs),
        DocView::Fill(docs) => all_trimless(docs),
        DocView::Indent(d) => trimless(*d),
        DocView::Align(_, d) => trimless(*d),
        DocView::Group { contents, .. } => trimless(*contents),
        DocView::IfBreak { when_break, when_flat, .. } => trimless(*when_break) && trimless(
            *when_flat,
        ),
        _ => true,
    }
}

/// Every one of `docs` is [`trimless`].
pub open spec fn all_trimless(docs: Seq<DocView>) -> bool
    decreases docs,
{
    docs.len() == 0 || (trimless(docs.first()) && all_trimless(docs.drop_first()))
}

/// Every command of the stack holds a trimless document.
pub open spec fn trimless_stack(cmds: Seq<Command>) -> bool {
    forall|i: int| 0 <= i < cmds.len() ==> trimless((#[trigger] cmds[i]).doc)
}

/// A plain document whose groups are plain too and carry no handle: texts,
/// soft lines, indentation, `IfBreak`, and groups of these that are not
/// marked broken and have no expanded states.
pub open spec fn flowing(doc: DocView) -> bool
    decreases doc,
{
    match doc {
        DocView::Text(_) => true,
        DocView::BreakParent => true,
        DocView::Line(kind) => !kind.forced(),
        DocView::Concat(docs) => all_flowing(docs),
        DocView::Indent(d) => flowing(*d),
        DocView::Align(_, d) => flowing(*d),
        DocView::IfBreak { when_break, when_flat, .. } => flowing(*when_break) && flowing(
            *when_flat,
        ),
        DocView::Group { id, contents, should_break, expanded_states } => id is None
            && !should_break && expanded_states is None && flowing(*contents),
        DocView::LineSuffix(_) => false,
        DocView::Trim => false,
        DocView::Fill(_) => false,
    }
}

/// Every one of `docs` is [`flowing`].
pub open spec fn all_flowing(docs: Seq<DocView>) -> bool
    decreases docs,
{
    docs.len() == 0 || (flowing(docs.first()) && all_flowing(docs.drop_first()))
}

/// Every command of the stack is flat and holds a flowing document.
pub open spec fn flowing_stack(cmds: Seq<Command>) -> bool {
    forall|i: int|
        0 <= i < cmds.len() ==> (#[trigger] cmds[i]).mode == Mode::Flat && flowing(cmds[i].doc)
}

/// Each of a run of trimless documents is trimless.
pub proof fn lemma_all_trimless_index(docs: Seq<DocView>, k: int)
    requires
        all_trimless(docs),
        0 <= k < docs.len(),
    ensures
        trimless(docs[k]),
    decreases docs.len(),
{
    if k > 0 {
        lemma_all_trimless_index(docs.drop_first(), k - 1);
    }
}

/// Each of a run of flowing documents is flowing.
pub proof fn lemma_all_flowing_index(docs: Seq<DocView>, k: int)
    requires
        all_flowing(docs),
        0 <= k < docs.len(),
    ensures
        flowing(docs[k]),
    decreases docs.len(),
{
    if k > 0 {
        lemma_all_flowing_index(docs.drop_first(), k - 1);
    }
}

/// A flowing document is plain.
pub proof fn lemma_flowing_is_plain(doc: DocView)
    requires
        flowing(doc),
    ensures
        plain(doc),
    decreases doc,
{
    match doc {
        DocView::Concat(docs) => {
            lemma_all_flowing_is_plain(docs);
        },
        DocView::Indent(d) => {
            lemma_flowing_is_plain(*d);
        },
        DocView::Align(_, d) => {
            lemma_flowing_is_plain(*d);
        },
        DocView::Group { contents, .. } => {
            lemma_flowing_is_plain(*contents);
        },
        DocView::IfBreak { when_break, when_flat, .. } => {
            lemma_flowing_is_plain(*when_break);
            lemma_flowing_is_plain(*when_flat);
        },
        _ => {},
    }
}

/// Flowing documents are plain.
pub proof fn lemma_all_flowing_is_plain(docs: Seq<DocView>)
    requires
        all_flowing(docs),
    ensures
        all_plain(docs),
    decreases docs,
{
    if docs.len() > 0 {
        lemma_flowing_is_plain(docs.first());
        lemma_all_flowing_is_plain(docs.drop_first());
    }
}

/// A flowing document is trimless.
pub proof fn lemma_flowing_is_trimless(doc: DocView)
    requires
        flowing(doc),
    ensures
        trimless(doc),
    decreases doc,
{
    match doc {
        DocView::Concat(docs) => {
            lemma_all_flowing_is_trimless(docs);
        },
        DocView::Indent(d) => {
            lemma_flowing_is_trimless(*d);
        },
        DocView::Align(_, d) => {
            lemma_flowing_is_trimless(*d);
        },
        DocView::Group { contents, .. } => {
            lemma_flowing_is_trimless(*contents);
        },
        DocView::IfBreak { when_break, when_flat, .. } => {
            lemma_flowing_is_trimless(*when_break);
            lemma_flowing_is_trimless(*when_flat);
        },
        _ => {},
    }
}

/// Flowing documents are trimless.
pub proof fn lemma_all_flowing_is_trimless(docs: Seq<DocView>)
    requires
        all_flowing(docs),
    ensures
        all_trimless(docs),
    decreases docs,
{
    if docs.len() > 0 {
        lemma_flowing_is_trimless(docs.first());
        lemma_all_flowing_is_trimless(docs.drop_first());
    }
}

/// A push puts the flat text of the command first and adds its flat width.
pub proof fn lemma_flat_push(cmds: Seq<Command>, c: Command, modes: Map<u32, Mode>, newline: Seq<char>)
    ensures
        stack_flat_text(cmds.push(c), modes, newline) == flat_text(c.doc, modes, newline)
            + stack_flat_text(cmds, modes, newline),
        stack_flat_width(cmds.push(c), modes) == stack_flat_width(cmds, modes) + flat_width(
            c.doc,
            modes,
        ),
{
    assert(cmds.push(c).drop_last() =~= cmds);
}

/// The commands of a run of documents have the flat text and the flat width
/// of the run.
pub proof fn lemma_flat_children(
    below: Seq<Command>,
    docs: Seq<DocView>,
    indent: Indentation,
    mode: Mode,
    modes: Map<u32, Mode>,
    newline: Seq<char>,
)
    ensures
        stack_flat_text(below + children(docs, indent, mode), modes, newline) == docs_flat_text(
            docs,
            modes,
            newline,
        ) + stack_flat_text(below, modes, newline),
        stack_flat_width(below + children(docs, indent, mode), modes) == stack_flat_width(
            below,
            modes,
        ) + docs_flat_width(docs, modes),
    decreases docs.len(),
{
    let all = below + children(docs, indent, mode);
    if docs.len() == 0 {
        assert(all =~= below);
        assert(docs_flat_text(docs, modes, newline) + stack_flat_text(below, modes, newline)
            =~= stack_flat_text(below, modes, newline));
    } else {
        let rest = below + children(docs.drop_first(), indent, mode);
        let top = Command { indent, mode, doc: docs.first() };
        lemma_flat_children(below, docs.drop_first(), indent, mode, modes, newline);
        assert(all =~= rest.push(top));
        lemma_flat_push(rest, top, modes, newline);
        assert(stack_flat_text(all, modes, newline) =~= docs_flat_text(docs, modes, newline)
            + stack_flat_text(below, modes, newline));
    }
}

/// Where the width check meets no `Trim`, the blanks that end what it has
/// measured make no difference.
pub proof fn lemma_fits_ignores_trailing(
    s: FitState,
    trailing: nat,
    rest: Seq<Command>,
    must_be_flat: bool,
    modes: Map<u32, Mode>,
)
    requires
        trimless_stack(s.cmds),
        trimless_stack(rest),
    ensures
        fits_from(s, rest, must_be_flat, modes) == fits_from(
            FitState { trailing, ..s },
            rest,
            must_be_flat,
            modes,
        ),
    decreases fit_measure(s, rest),
{
    let other = FitState { trailing, ..s };
    lemma_fit_step_decreases(s, rest, must_be_flat, modes);
    if s.width >= 0 {
        if s.cmds.len() > 0 {
            let c = s.cmds.last();
            let below = s.cmds.drop_last();
            assert(trimless(c.doc));
            assert(trimless_stack(below)) by {
                assert forall|i: int| 0 <= i < below.len() implies trimless(
                    (#[trigger] below[i]).doc,
                ) by {
                    assert(below[i] == s.cmds[i]);
                }
            }
        } else if 0 < s.rest_len <= rest.len() {
            assert(trimless(rest[s.rest_len - 1].doc));
        }
        match fit_step(s, rest, must_be_flat, modes) {
            FitStep::Next(n) => {
                match fit_step(other, rest, must_be_flat, modes) {
                    FitStep::Next(o) => {
                        assert(n.cmds == o.cmds && n.width == o.width && n.rest_len == o.rest_len);
                        assert(trimless_stack(n.cmds)) by {
                            assert forall|i: int| 0 <= i < n.cmds.len() implies trimless(
                                (#[trigger] n.cmds[i]).doc,
                            ) by {
                                if s.cmds.len() > 0 {
                                    let c = s.cmds.last();
                                    let below = s.cmds.drop_last();
                                    if i < below.len() {
                                        assert(n.cmds[i] == below[i]);
                                    } else {
                                        match c.doc {
                                            DocView::Concat(docs) => {
                                                lemma_all_trimless_index(
                                                    docs,
                                                    docs.len() - 1 - (i - below.len()),
                                                );
                                            },
                                            DocView::Fill(docs) => {
                                                lemma_all_trimless_index(
                                                    docs,
                                                    docs.len() - 1 - (i - below.len()),
                                                );
                                            },
                                            _ => {},
                                        }
                                    }
                                }
                            }
                        }
                        lemma_fits_ignores_trailing(n, o.trailing, rest, must_be_flat, modes);
                        assert(FitState { trailing: o.trailing, ..n } == o);
                    },
                    FitStep::Done(_) => {},
                }
            },
            FitStep::Done(_) => {},
        }
    }
}

/// The printer writes flowing flat commands on the current line, provided
/// that the width check accepts them with what follows them on the line and
/// that nothing under them holds a `Trim`: once the stack is down to what
/// lay under them, their flat text is out, the column has advanced by their
/// flat width, and nothing else has changed. Every group among them is
/// rendered flat.
pub proof fn lemma_flowing_run(
    m: Machine,
    layout: Layout,
    base: Seq<Command>,
    region: Seq<Command>,
    trailing: nat,
)
    requires
        m.cmds == base + region,
        flowing_stack(region),
        trimless_stack(base),
        fits_from(
            FitState {
                cmds: region,
                rest_len: base.len(),
                width: layout.print_width - m.column,
                trailing,
            },
            base,
            false,
            m.modes,
        ),
    ensures
        run_until(m, layout, base.len()) == (Machine {
            out: m.out + stack_flat_text(region, m.modes, layout.newline),
            column: m.column + stack_flat_width(region, m.modes),
            cmds: base,
            ..m
        }),
    decreases measure(m, layout.tab_width),
{
    let text = stack_flat_text(region, m.modes, layout.newline);
    let width = layout.print_width - m.column;
    let s = FitState { cmds: region, rest_len: base.len(), width, trailing };
    if region.len() == 0 {
        assert(m.cmds =~= base);
        assert(m.out + text =~= m.out);
    } else {
        lemma_step_decreases(m, layout);
        lemma_fit_step_decreases(s, base, false, m.modes);
        let c = region.last();
        let under = region.drop_last();
        let next = step(m, layout);
        assert(m.cmds.last() == c);
        assert(m.cmds.drop_last() =~= base + under);
        assert(c.mode == Mode::Flat && flowing(c.doc));
        assert(flowing_stack(under)) by {
            assert forall|i: int| 0 <= i < under.len() implies (#[trigger] under[i]).mode
                == Mode::Flat && flowing(under[i].doc) by {
                assert(under[i] == region[i]);
            }
        }
        // What the printer puts in the place of `c`, and the state of the
        // width check that stands for it.
        let grown: Seq<Command> = match c.doc {
            DocView::Concat(docs) => under + children(docs, c.indent, Mode::Flat),
            DocView::Indent(d) => under.push(Command { indent: c.indent.deeper(), doc: *d, ..c }),
            DocView::Align(n, d) => under.push(
                Command { indent: c.indent.aligned(n), doc: *d, ..c },
            ),
            DocView::Group { contents, .. } => under.push(Command { doc: *contents, ..c }),
            DocView::IfBreak { when_break, when_flat, target_group } => under.push(
                Command {
                    doc: if deciding_mode(target_group, Mode::Flat, m.modes) == Mode::Break {
                        *when_break
                    } else {
                        *when_flat
                    },
                    ..c
                },
            ),
            _ => under,
        };
        let n = fit_step(s, base, false, m.modes)->Next_0;
        assert(fit_step(s, base, false, m.modes) is Next);
        assert(fits_from(n, base, false, m.modes));
        let after = FitState { cmds: grown, ..n };
        match c.doc {
            DocView::Concat(docs) => {
                lemma_flat_children(under, docs, c.indent, Mode::Flat, m.modes, layout.newline);
                assert(base + under + children(docs, c.indent, Mode::Flat) =~= base + grown);
                assert(n.cmds == grown);
            },
            DocView::Indent(d) => {
                let x = Command { indent: c.indent.deeper(), doc: *d, ..c };
                lemma_flat_push(under, x, m.modes, layout.newline);
                assert((base + under).push(x) =~= base + grown);
                lemma_shape_of_push(under, Command { doc: *d, ..c }, x);
                lemma_shape_same(base);
                lemma_fits_same_shape(n, after, base, base, false, m.modes);
            },
            DocView::Align(k, d) => {
                let x = Command { indent: c.indent.aligned(k), doc: *d, ..c };
                lemma_flat_push(under, x, m.modes, layout.newline);
                assert((base + under).push(x) =~= base + grown);
                lemma_shape_of_push(under, Command { doc: *d, ..c }, x);
                lemma_shape_same(base);
                lemma_fits_same_shape(n, after, base, base, false, m.modes);
            },
            DocView::Group { contents, .. } => {
                let x = Command { doc: *contents, ..c };
                lemma_flat_push(under, x, m.modes, layout.newline);
                assert(n.cmds == grown);
                // The check that the printer makes for this group is the
                // check that has accepted the commands around it.
                assert(trimless_stack(grown)) by {
                    assert forall|i: int| 0 <= i < grown.len() implies trimless(
                        (#[trigger] grown[i]).doc,
                    ) by {
                        if i < under.len() {
                            assert(grown[i] == under[i]);
                            lemma_flowing_is_trimless(under[i].doc);
                        } else {
                            lemma_flowing_is_trimless(*contents);
                        }
                    }
                }
                lemma_fits_ignores_trailing(n, 0, base, false, m.modes);
                assert(under + seq![x] =~= grown);
                lemma_fits_move(under, seq![x], base, width, 0, false, m.modes);
                assert((base + under).push(x) =~= base + grown);
            },
            DocView::IfBreak { when_break, when_flat, target_group } => {
                let x = Command {
                    doc: if deciding_mode(target_group, Mode::Flat, m.modes) == Mode::Break {
                        *when_break
                    } else {
                        *when_flat
                    },
                    ..c
                };
                lemma_flat_push(under, x, m.modes, layout.newline);
                assert((base + under).push(x) =~= base + grown);
                assert(n.cmds == grown);
            },
            _ => {
                assert(n.cmds == grown);
            },
        }
        assert(fits_from(after, base, false, m.modes));
        assert(next.cmds =~= base + grown);
        assert(next.modes == m.modes);
        assert(next.suffixes == m.suffixes);
        assert(after.width == layout.print_width - next.column);
        assert(flowing_stack(grown)) by {
            assert forall|i: int| 0 <= i < grown.len() implies (#[trigger] grown[i]).mode
                == Mode::Flat && flowing(grown[i].doc) by {
                if i < under.len() {
                    assert(grown[i] == under[i]);
                } else {
                    match c.doc {
                        DocView::Concat(docs) => {
                            lemma_all_flowing_index(docs, docs.len() - 1 - (i - under.len()));
                        },
                        _ => {},
                    }
                }
            }
        }
        lemma_flowing_run(next, layout, base, grown, after.trailing);
        let rest_text = stack_flat_text(grown, m.modes, layout.newline);
        assert(next.out + rest_text =~= m.out + text);
        assert(next.column + stack_flat_width(grown, m.modes) == m.column + stack_flat_width(
            region,
            m.modes,
        ));
    }
}

/// A stack has its own shape.
pub proof fn lemma_shape_same(cmds: Seq<Command>)
    ensures
        same_shape(cmds, cmds),
{
}

/// Pushes of commands that differ in indentation only keep the shape.
pub proof fn lemma_shape_of_push(cmds: Seq<Command>, a: Command, b: Command)
    requires
        a.mode == b.mode,
        a.doc == b.doc,
    ensures
        same_shape(cmds.push(a), cmds.push(b)),
{
    assert forall|i: int| 0 <= i < cmds.push(a).len() implies (#[trigger] cmds.push(a)[i]).mode
        == cmds.push(b)[i].mode && cmds.push(a)[i].doc == cmds.push(b)[i].doc by {
        if i < cmds.len() {
            assert(cmds.push(a)[i] == cmds[i]);
            assert(cmds.push(b)[i] == cmds[i]);
        }
    }
}

/// A document that the width check measures as the printer prints it: it
/// holds no `Trim` and no fill, and its groups have neither a handle nor
/// expanded states. Its lines and the marks of its groups are free, and so
/// is what its line suffixes hold: that is written when the line has ended.
pub open spec fn tame(doc: DocView) -> bool
    decreases doc,
{
    match doc {
        DocView::Text(_) => true,
        DocView::BreakParent => true,
        DocView::Line(_) => true,
        DocView::Concat(docs) => all_tame(docs),
        DocView::Indent(d) => tame(*d),
        DocView::Align(_, d) => tame(*d),
        DocView::IfBreak { when_break, when_flat, .. } => tame(*when_break) && tame(*when_flat),
        DocView::Group { id, contents, expanded_states, .. } => id is None && expanded_states is None
            && tame(*contents),
        DocView::LineSuffix(_) => true,
        DocView::Trim => false,
        DocView::Fill(_) => false,
    }
}

/// Every one of `docs` is [`tame`].
pub open spec fn all_tame(docs: Seq<DocView>) -> bool
    decreases docs,
{
    docs.len() == 0 || (tame(docs.first()) && all_tame(docs.drop_first()))
}

/// Every command of the stack holds a tame document.
pub open spec fn tame_stack(cmds: Seq<Command>) -> bool {
    forall|i: int| 0 <= i < cmds.len() ==> tame((#[trigger] cmds[i]).doc)
}

/// Each of a run of tame documents is tame.
pub proof fn lemma_all_tame_index(docs: Seq<DocView>, k: int)
    requires
        all_tame(docs),
        0 <= k < docs.len(),
    ensures
        tame(docs[k]),
    decreases docs.len(),
{
    if k > 0 {
        lemma_all_tame_index(docs.drop_first(), k - 1);
    }
}

/// A tame document is trimless.
pub proof fn lemma_tame_is_trimless(doc: DocView)
    requires
        tame(doc),
    ensures
        trimless(doc),
    decreases doc,
{
    match doc {
        DocView::Concat(docs) => {
            lemma_all_tame_is_trimless(docs);
        },
        DocView::Indent(d) => {
            lemma_tame_is_trimless(*d);
        },
        DocView::Align(_, d) => {
            lemma_tame_is_trimless(*d);
        },
        DocView::Group { contents, .. } => {
            lemma_tame_is_trimless(*contents);
        },
        DocView::IfBreak { when_break, when_flat, .. } => {
            lemma_tame_is_trimless(*when_break);
            lemma_tame_is_trimless(*when_flat);
        },
        _ => {},
    }
}

/// Tame documents are trimless.
pub proof fn lemma_all_tame_is_trimless(docs: Seq<DocView>)
    requires
        all_tame(docs),
    ensures
        all_trimless(docs),
    decreases docs,
{
    if docs.len() > 0 {
        lemma_tame_is_trimless(docs.first());
        lemma_all_tame_is_trimless(docs.drop_first());
    }
}

/// A stack of tame documents is trimless.
pub proof fn lemma_tame_stack_is_trimless(cmds: Seq<Command>)
    requires
        tame_stack(cmds),
    ensures
        trimless_stack(cmds),
{
    assert forall|i: int| 0 <= i < cmds.len() implies trimless((#[trigger] cmds[i]).doc) by {
        lemma_tame_is_trimless(cmds[i].doc);
    }
}

/// The next step of the printer ends the line: the top of its stack is a
/// line that breaks.
pub open spec fn ends_line(m: Machine) -> bool {
    &&& m.cmds.len() > 0
    &&& m.cmds.last().doc matches DocView::Line(kind) && (m.cmds.last().mode == Mode::Break
        || kind.forced())
}

/// The state in which the printer is when the current line ends: before the
/// step that breaks it, or with nothing left on the stack.
pub open spec fn run_line(m: Machine, layout: Layout) -> Machine
    decreases measure(m, layout.tab_width),
{
    if m.cmds.len() == 0 || ends_line(m) {
        m
    } else {
        proof {
            lemma_step_decreases(m, layout);
        }
        run_line(step(m, layout), layout)
    }
}

/// The width check accepts all that is on the stack, up to the next certain
/// newline, in the columns that are left.
pub open spec fn rest_of_line_fits(m: Machine, layout: Layout, trailing: nat) -> bool {
    fits_from(
        FitState { cmds: m.cmds, rest_len: 0, width: layout.print_width - m.column, trailing },
        Seq::empty(),
        false,
        m.modes,
    )
}

/// While the rest of the line fits, a step of the printer that does not end
/// the line keeps it so: what the printer does is what the width check has
/// measured. Returns the blanks that end what is measured after the step.
pub proof fn lemma_line_step(m: Machine, layout: Layout, trailing: nat) -> (after: nat)
    requires
        m.cmds.len() > 0,
        !ends_line(m),
        tame_stack(m.cmds),
        rest_of_line_fits(m, layout, trailing),
    ensures
        tame_stack(step(m, layout).cmds),
        rest_of_line_fits(step(m, layout), layout, after),
        step(m, layout).column >= m.column,
        step(m, layout).modes == m.modes,
{
    let none = Seq::<Command>::empty();
    let width = layout.print_width - m.column;
    let s = FitState { cmds: m.cmds, rest_len: 0, width, trailing };
    let c = m.cmds.last();
    let below = m.cmds.drop_last();
    let next = step(m, layout);
    lemma_fit_step_decreases(s, none, false, m.modes);
    assert(tame(c.doc));
    assert(tame_stack(below)) by {
        assert forall|i: int| 0 <= i < below.len() implies tame((#[trigger] below[i]).doc) by {
            assert(below[i] == m.cmds[i]);
        }
    }
    assert(fit_step(s, none, false, m.modes) is Next);
    let n = fit_step(s, none, false, m.modes)->Next_0;
    assert(fits_from(n, none, false, m.modes));
    let mut after = n.trailing;
    match c.doc {
        DocView::Concat(docs) => {
            assert(next.cmds == n.cmds);
        },
        DocView::Indent(d) => {
            let x = Command { indent: c.indent.deeper(), doc: *d, ..c };
            lemma_shape_of_push(below, Command { doc: *d, ..c }, x);
            lemma_shape_same(none);
            lemma_fits_same_shape(n, FitState { cmds: next.cmds, ..n }, none, none, false, m.modes);
        },
        DocView::Align(k, d) => {
            let x = Command { indent: c.indent.aligned(k), doc: *d, ..c };
            lemma_shape_of_push(below, Command { doc: *d, ..c }, x);
            lemma_shape_same(none);
            lemma_fits_same_shape(n, FitState { cmds: next.cmds, ..n }, none, none, false, m.modes);
        },
        DocView::Group { contents, should_break, .. } => {
            let x = flat(c, *contents);
            let chosen = fits(seq![x], below, width, false, m.modes);
            assert(none + below =~= below);
            assert(below + seq![x] =~= below.push(x));
            lemma_fits_move(below, seq![x], none, width, 0, false, m.modes);
            if !should_break {
                if chosen {
                    // The check of the printer itself says that the rest of
                    // the line fits with this group flat.
                    after = 0;
                } else if c.mode == Mode::Flat {
                    // The width check has measured this group flat and has
                    // accepted it: the printer cannot have refused it.
                    assert(tame_stack(below.push(x))) by {
                        assert forall|i: int| 0 <= i < below.push(x).len() implies tame(
                            (#[trigger] below.push(x)[i]).doc,
                        ) by {
                            if i < below.len() {
                                assert(below.push(x)[i] == below[i]);
                            }
                        }
                    }
                    lemma_tame_stack_is_trimless(below.push(x));
                    assert(trimless_stack(none));
                    lemma_fits_ignores_trailing(n, 0, none, false, m.modes);
                }
            }
        },
        _ => {},
    }
    assert(tame_stack(next.cmds)) by {
        assert forall|i: int| 0 <= i < next.cmds.len() implies tame((#[trigger] next.cmds[i]).doc) by {
            if i < below.len() {
                assert(next.cmds[i] == below[i]);
            } else {
                match c.doc {
                    DocView::Concat(docs) => {
                        lemma_all_tame_index(docs, docs.len() - 1 - (i - below.len()));
                    },
                    _ => {},
                }
            }
        }
    }
    after
}

/// While the rest of the line fits, the printer stays within the line
/// width up to the end of the line. The column is that of the text of the
/// line itself: line suffixes are written after it.
pub proof fn lemma_line_run(m: Machine, layout: Layout, trailing: nat)
    requires
        tame_stack(m.cmds),
        rest_of_line_fits(m, layout, trailing),
    ensures
        m.column <= run_line(m, layout).column <= layout.print_width,
        run_line(m, layout).modes == m.modes,
    decreases measure(m, layout.tab_width),
{
    if m.cmds.len() == 0 || ends_line(m) {
    } else {
        lemma_step_decreases(m, layout);
        let after = lemma_line_step(m, layout, trailing);
        lemma_line_run(step(m, layout), layout, after);
    }
}

} // verus!
