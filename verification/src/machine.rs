//! The printer as a state machine: a work stack of commands, the text that is
//! out, the column, the pending line suffixes and the modes of the groups
//! that were given a handle.

use crate::doc::{docs_weight, weight, DocView, LineKind};
use crate::fits::fits;
use crate::layout::{
    blank_run, children, deciding_mode, indent_text, lemma_children_weight,
    lemma_docs_weight_index, lemma_docs_weight_skip2, lemma_reverse_weight,
    lemma_stack_weight_add, lemma_stack_weight_push, normalized, stack_weight, Command,
    Indentation, Layout, Mode,
};
use vstd::prelude::*;

verus! {

/// The state of the printer.
pub struct Machine {
    /// The text that is out.
    pub out: Seq<char>,
    /// The column of the next character, counted from 1.
    pub column: nat,
    /// The work stack, top last.
    pub cmds: Seq<Command>,
    /// The line suffixes that wait for the next newline, oldest first.
    pub suffixes: Seq<Command>,
    /// The mode of each group that has a handle and was reached.
    pub modes: Map<u32, Mode>,
}

/// The flat command for `doc` at the indentation of `c`.
pub open spec fn flat(c: Command, doc: DocView) -> Command {
    Command { mode: Mode::Flat, doc, ..c }
}

/// `Flat` where `fitting`, `Break` otherwise.
pub open spec fn mode_if(fitting: bool) -> Mode {
    if fitting {
        Mode::Flat
    } else {
        Mode::Break
    }
}

/// The first of `states[from..]` that fits flat, or the last state, broken.
pub open spec fn pick_state(
    states: Seq<DocView>,
    from: nat,
    c: Command,
    rest: Seq<Command>,
    width: int,
    modes: Map<u32, Mode>,
) -> (Mode, DocView)
    decreases states.len() - from,
{
    if from >= states.len() {
        (Mode::Break, states.last())
    } else if fits(seq![flat(c, states[from as int])], rest, width, false, modes) {
        (Mode::Flat, states[from as int])
    } else {
        pick_state(states, from + 1, c, rest, width, modes)
    }
}

/// The mode and the document in which the printer renders a group that it
/// meets as command `c`, with `rest` below it on the stack and `width`
/// columns left. A group marked broken is rendered broken. Otherwise its
/// contents are rendered flat where they fit; where they do not, the first
/// expanded state that fits is rendered flat; where none fits, the last
/// expanded state, or the contents of a group that has none, is rendered
/// broken.
pub open spec fn group_choice(
    contents: DocView,
    should_break: bool,
    expanded_states: Option<Seq<DocView>>,
    c: Command,
    rest: Seq<Command>,
    width: int,
    modes: Map<u32, Mode>,
) -> (Mode, DocView) {
    if should_break {
        (Mode::Break, contents)
    } else if fits(seq![flat(c, contents)], rest, width, false, modes) {
        (Mode::Flat, contents)
    } else {
        match expanded_states {
            Some(states) => if states.len() == 0 {
                (Mode::Break, contents)
            } else {
                pick_state(states, 0, c, rest, width, modes)
            },
            None => (Mode::Break, contents),
        }
    }
}

/// The stack after the printer has met the fill `items` as command `c`, with
/// `below` under it. The first content is flat where it fits alone. The
/// separator after it is flat where the content, the separator and the next
/// content fit together. What is left of the fill waits below them.
pub open spec fn fill_push(
    items: Seq<DocView>,
    c: Command,
    below: Seq<Command>,
    width: int,
    modes: Map<u32, Mode>,
) -> Seq<Command> {
    if items.len() == 0 {
        below
    } else {
        let content_fits = fits(seq![flat(c, items[0])], Seq::empty(), width, true, modes);
        let content = Command { mode: mode_if(content_fits), doc: items[0], ..c };
        if items.len() == 1 {
            below.push(content)
        } else if items.len() == 2 {
            below.push(Command { mode: mode_if(content_fits), doc: items[1], ..c }).push(content)
        } else {
            let pair_fits = content_fits && fits(
                seq![flat(c, items[2]), flat(c, items[1]), flat(c, items[0])],
                Seq::empty(),
                width,
                true,
                modes,
            );
            below.push(Command { doc: DocView::Fill(items.skip(2)), ..c }).push(
                Command { mode: mode_if(pair_fits), doc: items[1], ..c },
            ).push(content)
        }
    }
}

/// How many blanks `Trim` erases: those that end the text, as far as they
/// stand on the current line.
pub open spec fn trim_count(out: Seq<char>, column: nat) -> nat {
    let run = blank_run(out, 0);
    if column == 0 {
        0
    } else if run < column {
        run
    } else {
        (column - 1) as nat
    }
}

/// Nothing is left to print.
pub open spec fn done(m: Machine) -> bool {
    m.cmds.len() == 0 && m.suffixes.len() == 0
}

/// One step of the printer.
pub open spec fn step(m: Machine, layout: Layout) -> Machine {
    if m.cmds.len() == 0 {
        Machine { cmds: m.suffixes.reverse(), suffixes: Seq::empty(), ..m }
    } else {
        let c = m.cmds.last();
        let below = m.cmds.drop_last();
        let width = layout.print_width - m.column;
        match c.doc {
            DocView::Text(t) => Machine {
                out: m.out + normalized(t, layout.newline),
                column: m.column + t.len(),
                cmds: below,
                ..m
            },
            DocView::Concat(docs) => Machine {
                cmds: below + children(docs, c.indent, c.mode),
                ..m
            },
            DocView::Indent(d) => Machine {
                cmds: below.push(Command { indent: c.indent.deeper(), doc: *d, ..c }),
                ..m
            },
            DocView::Align(n, d) => Machine {
                cmds: below.push(Command { indent: c.indent.aligned(n), doc: *d, ..c }),
                ..m
            },
            DocView::Trim => {
                let k = trim_count(m.out, m.column);
                Machine {
                    out: m.out.take(m.out.len() - k),
                    column: (m.column - k) as nat,
                    cmds: below,
                    ..m
                }
            },
            DocView::Group { id, contents, should_break, expanded_states } => {
                let (mode, doc) = group_choice(
                    *contents,
                    should_break,
                    expanded_states,
                    c,
                    below,
                    width,
                    m.modes,
                );
                Machine {
                    cmds: below.push(Command { mode, doc, ..c }),
                    modes: match id {
                        Some(handle) => m.modes.insert(handle, mode),
                        None => m.modes,
                    },
                    ..m
                }
            },
            DocView::IfBreak { when_break, when_flat, target_group } => Machine {
                cmds: below.push(
                    Command {
                        doc: if deciding_mode(target_group, c.mode, m.modes) == Mode::Break {
                            *when_break
                        } else {
                            *when_flat
                        },
                        ..c
                    },
                ),
                ..m
            },
            DocView::Line(kind) => if c.mode == Mode::Flat && !kind.forced() {
                if kind == LineKind::Soft {
                    Machine { out: m.out.push(' '), column: m.column + 1, cmds: below, ..m }
                } else {
                    Machine { cmds: below, ..m }
                }
            } else if m.suffixes.len() > 0 {
                Machine { cmds: m.cmds + m.suffixes.reverse(), suffixes: Seq::empty(), ..m }
            } else if kind == LineKind::Literal {
                Machine { out: m.out + layout.newline, column: 1, cmds: below, ..m }
            } else {
                Machine {
                    out: m.out + layout.newline + indent_text(c.indent, layout),
                    column: 1 + c.indent.width(layout.tab_width),
                    cmds: below,
                    ..m
                }
            },
            DocView::LineSuffix(d) => Machine {
                cmds: below,
                suffixes: m.suffixes.push(Command { doc: *d, ..c }),
                ..m
            },
            DocView::BreakParent => Machine { cmds: below, ..m },
            DocView::Fill(items) => Machine {
                cmds: fill_push(items, c, below, width, m.modes),
                ..m
            },
        }
    }
}

/// The weight of all the work that is left.
pub open spec fn load(m: Machine, tab: nat) -> nat {
    stack_weight(m.cmds, tab) + stack_weight(m.suffixes, tab)
}

/// What bounds the steps that the printer has left.
pub open spec fn measure(m: Machine, tab: nat) -> nat {
    2 * load(m, tab) + m.suffixes.len()
}

/// The state that is picked is one of the states: it weighs no more than
/// all of them.
pub proof fn lemma_pick_state(
    states: Seq<DocView>,
    from: nat,
    c: Command,
    rest: Seq<Command>,
    width: int,
    modes: Map<u32, Mode>,
    tab: nat,
)
    requires
        states.len() > 0,
    ensures
        weight(pick_state(states, from, c, rest, width, modes).1, tab) <= docs_weight(states, tab),
    decreases states.len() - from,
{
    if from >= states.len() {
        lemma_docs_weight_index(states, states.len() - 1, tab);
    } else if fits(seq![flat(c, states[from as int])], rest, width, false, modes) {
        lemma_docs_weight_index(states, from as int, tab);
    } else {
        lemma_pick_state(states, from + 1, c, rest, width, modes, tab);
    }
}

/// The document that a group is rendered as weighs less than the group.
pub proof fn lemma_group_choice(
    contents: DocView,
    should_break: bool,
    expanded_states: Option<Seq<DocView>>,
    c: Command,
    rest: Seq<Command>,
    width: int,
    modes: Map<u32, Mode>,
    tab: nat,
)
    ensures
        weight(
            group_choice(contents, should_break, expanded_states, c, rest, width, modes).1,
            tab,
        ) <= weight(contents, tab) + (match expanded_states {
            Some(states) => docs_weight(states, tab),
            None => 0,
        }),
{
    match expanded_states {
        Some(states) => {
            if states.len() > 0 {
                lemma_pick_state(states, 0, c, rest, width, modes, tab);
            }
        },
        None => {},
    }
}

/// What a fill puts on the stack weighs two less than the fill.
pub proof fn lemma_fill_push(
    items: Seq<DocView>,
    c: Command,
    below: Seq<Command>,
    width: int,
    modes: Map<u32, Mode>,
    tab: nat,
)
    ensures
        stack_weight(fill_push(items, c, below, width, modes), tab) < stack_weight(below, tab)
            + weight(DocView::Fill(items), tab),
        stack_weight(fill_push(items, c, below, width, modes), tab) >= stack_weight(below, tab),
{
    if items.len() > 0 {
        let content_fits = fits(seq![flat(c, items[0])], Seq::empty(), width, true, modes);
        let content = Command { mode: mode_if(content_fits), doc: items[0], ..c };
        if items.len() == 1 {
            lemma_stack_weight_push(below, content, tab);
            assert(docs_weight(items.drop_first(), tab) == 0);
            assert(docs_weight(items, tab) == weight(items[0], tab));
        } else if items.len() == 2 {
            let sep = Command { mode: mode_if(content_fits), doc: items[1], ..c };
            lemma_stack_weight_push(below, sep, tab);
            lemma_stack_weight_push(below.push(sep), content, tab);
            lemma_docs_weight_skip2(items, tab);
            assert(docs_weight(items.skip(2), tab) == 0);
        } else {
            let pair_fits = content_fits && fits(
                seq![flat(c, items[2]), flat(c, items[1]), flat(c, items[0])],
                Seq::empty(),
                width,
                true,
                modes,
            );
            let remaining = Command { doc: DocView::Fill(items.skip(2)), ..c };
            let sep = Command { mode: mode_if(pair_fits), doc: items[1], ..c };
            lemma_stack_weight_push(below, remaining, tab);
            lemma_stack_weight_push(below.push(remaining), sep, tab);
            lemma_stack_weight_push(below.push(remaining).push(sep), content, tab);
            lemma_docs_weight_skip2(items, tab);
            assert(weight(remaining.doc, tab) == 1 + (items.len() - 2) + docs_weight(
                items.skip(2),
                tab,
            ));
        }
    }
}

/// Every step lowers the measure.
pub proof fn lemma_step_decreases(m: Machine, layout: Layout)
    requires
        !done(m),
    ensures
        measure(step(m, layout), layout.tab_width) < measure(m, layout.tab_width),
{
    let tab = layout.tab_width;
    if m.cmds.len() == 0 {
        lemma_reverse_weight(m.suffixes, tab);
    } else {
        let c = m.cmds.last();
        let below = m.cmds.drop_last();
        let width = layout.print_width - m.column;
        match c.doc {
            DocView::Concat(docs) => {
                lemma_stack_weight_add(below, children(docs, c.indent, c.mode), tab);
                lemma_children_weight(docs, c.indent, c.mode, tab);
            },
            DocView::Indent(d) => {
                lemma_stack_weight_push(
                    below,
                    Command { indent: c.indent.deeper(), doc: *d, ..c },
                    tab,
                );
            },
            DocView::Align(n, d) => {
                lemma_stack_weight_push(
                    below,
                    Command { indent: c.indent.aligned(n), doc: *d, ..c },
                    tab,
                );
            },
            DocView::Group { id, contents, should_break, expanded_states } => {
                let (mode, doc) = group_choice(
                    *contents,
                    should_break,
                    expanded_states,
                    c,
                    below,
                    width,
                    m.modes,
                );
                lemma_group_choice(
                    *contents,
                    should_break,
                    expanded_states,
                    c,
                    below,
                    width,
                    m.modes,
                    tab,
                );
                lemma_stack_weight_push(below, Command { mode, doc, ..c }, tab);
            },
            DocView::IfBreak { when_break, when_flat, target_group } => {
                lemma_stack_weight_push(below, Command { doc: *when_break, ..c }, tab);
                lemma_stack_weight_push(below, Command { doc: *when_flat, ..c }, tab);
            },
            DocView::Line(kind) => {
                if !(c.mode == Mode::Flat && !kind.forced()) && m.suffixes.len() > 0 {
                    lemma_stack_weight_add(m.cmds, m.suffixes.reverse(), tab);
                    lemma_reverse_weight(m.suffixes, tab);
                }
            },
            DocView::LineSuffix(d) => {
                lemma_stack_weight_push(m.suffixes, Command { doc: *d, ..c }, tab);
            },
            DocView::Fill(items) => {
                lemma_fill_push(items, c, below, width, m.modes, tab);
            },
            _ => {},
        }
    }
}

/// The state in which the printer stops.
pub open spec fn run(m: Machine, layout: Layout) -> Machine
    decreases measure(m, layout.tab_width),
{
    if done(m) {
        m
    } else {
        proof {
            lemma_step_decreases(m, layout);
        }
        run(step(m, layout), layout)
    }
}

/// The state in which the printer starts on `doc`: at the first column of an
/// empty text, with the whole document to render broken and unindented.
pub open spec fn start(doc: DocView) -> Machine {
    Machine {
        out: Seq::empty(),
        column: 1,
        cmds: seq![Command { indent: Indentation::root(), mode: Mode::Break, doc }],
        suffixes: Seq::empty(),
        modes: Map::empty(),
    }
}

/// The text that the printer gives for `doc`.
pub open spec fn rendered(doc: DocView, layout: Layout) -> Seq<char> {
    run(start(doc), layout).out
}

/// The command's indentation and document together stay within `limit`.
pub open spec fn cmd_within(c: Command, tab: nat, limit: nat) -> bool {
    c.indent.width(tab) + weight(c.doc, tab) <= limit
}

/// Every command of the stack stays within `limit`.
pub open spec fn all_within(cmds: Seq<Command>, tab: nat, limit: nat) -> bool {
    forall|i: int| 0 <= i < cmds.len() ==> cmd_within(#[trigger] cmds[i], tab, limit)
}

/// The bounds that keep every number of the printer below twice `limit`:
/// they hold at the start for a document of at most that weight, and every
/// step keeps them.
pub open spec fn within(m: Machine, tab: nat, limit: nat) -> bool {
    &&& all_within(m.cmds, tab, limit)
    &&& all_within(m.suffixes, tab, limit)
    &&& load(m, tab) <= limit
    &&& m.column + load(m, tab) <= 2 * limit + 1
}

/// The bounds hold at the start for a document of at most `limit` weight.
pub proof fn lemma_start_within(doc: DocView, tab: nat, limit: nat)
    requires
        weight(doc, tab) <= limit,
    ensures
        within(start(doc), tab, limit),
{
    let c = Command { indent: Indentation::root(), mode: Mode::Break, doc };
    assert(seq![c] =~= Seq::<Command>::empty().push(c));
    lemma_stack_weight_push(Seq::empty(), c, tab);
    assert(Indentation::root().width(tab) == 0) by (nonlinear_arith)
        requires
            Indentation::root().stops == 0,
            Indentation::root().columns == 0,
            Indentation::root().width(tab) == Indentation::root().stops * tab
                + Indentation::root().columns,
    ;
}

/// The bounds of a stack hold after a push of a command within them.
pub proof fn lemma_all_within_push(cmds: Seq<Command>, c: Command, tab: nat, limit: nat)
    requires
        all_within(cmds, tab, limit),
        cmd_within(c, tab, limit),
    ensures
        all_within(cmds.push(c), tab, limit),
{
    assert forall|i: int| 0 <= i < cmds.push(c).len() implies cmd_within(
        #[trigger] cmds.push(c)[i],
        tab,
        limit,
    ) by {
        if i < cmds.len() {
            assert(cmds.push(c)[i] == cmds[i]);
        }
    }
}

/// The bounds hold of two stacks, one on the other, that both keep them.
pub proof fn lemma_all_within_add(a: Seq<Command>, b: Seq<Command>, tab: nat, limit: nat)
    requires
        all_within(a, tab, limit),
        all_within(b, tab, limit),
    ensures
        all_within(a + b, tab, limit),
{
    assert forall|i: int| 0 <= i < (a + b).len() implies cmd_within(
        #[trigger] (a + b)[i],
        tab,
        limit,
    ) by {
        if i < a.len() {
            assert((a + b)[i] == a[i]);
        } else {
            assert((a + b)[i] == b[i - a.len()]);
        }
    }
}

/// The bounds of a stack hold in either order.
pub proof fn lemma_all_within_reverse(cmds: Seq<Command>, tab: nat, limit: nat)
    requires
        all_within(cmds, tab, limit),
    ensures
        all_within(cmds.reverse(), tab, limit),
{
    assert forall|i: int| 0 <= i < cmds.reverse().len() implies cmd_within(
        #[trigger] cmds.reverse()[i],
        tab,
        limit,
    ) by {
        assert(cmds.reverse()[i] == cmds[cmds.len() - 1 - i]);
    }
}

/// The commands of a run of documents stay within the bounds that the run
/// stays within.
pub proof fn lemma_all_within_children(
    docs: Seq<DocView>,
    indent: Indentation,
    mode: Mode,
    tab: nat,
    limit: nat,
)
    requires
        indent.width(tab) + docs_weight(docs, tab) <= limit,
    ensures
        all_within(children(docs, indent, mode), tab, limit),
{
    let cs = children(docs, indent, mode);
    assert forall|i: int| 0 <= i < cs.len() implies cmd_within(#[trigger] cs[i], tab, limit) by {
        lemma_docs_weight_index(docs, docs.len() - 1 - i, tab);
    }
}

/// What a fill puts on the stack stays within the bounds of the fill.
pub proof fn lemma_fill_within(
    items: Seq<DocView>,
    c: Command,
    below: Seq<Command>,
    width: int,
    modes: Map<u32, Mode>,
    tab: nat,
    limit: nat,
)
    requires
        all_within(below, tab, limit),
        c.doc == DocView::Fill(items),
        cmd_within(c, tab, limit),
    ensures
        all_within(fill_push(items, c, below, width, modes), tab, limit),
{
    if items.len() > 0 {
        let content_fits = fits(seq![flat(c, items[0])], Seq::empty(), width, true, modes);
        let content = Command { mode: mode_if(content_fits), doc: items[0], ..c };
        lemma_docs_weight_index(items, 0, tab);
        if items.len() == 1 {
            lemma_all_within_push(below, content, tab, limit);
        } else if items.len() == 2 {
            let sep = Command { mode: mode_if(content_fits), doc: items[1], ..c };
            lemma_docs_weight_index(items, 1, tab);
            lemma_all_within_push(below, sep, tab, limit);
            lemma_all_within_push(below.push(sep), content, tab, limit);
        } else {
            let pair_fits = content_fits && fits(
                seq![flat(c, items[2]), flat(c, items[1]), flat(c, items[0])],
                Seq::empty(),
                width,
                true,
                modes,
            );
            let remaining = Command { doc: DocView::Fill(items.skip(2)), ..c };
            let sep = Command { mode: mode_if(pair_fits), doc: items[1], ..c };
            lemma_docs_weight_index(items, 1, tab);
            lemma_docs_weight_skip2(items, tab);
            assert(weight(remaining.doc, tab) == 1 + (items.len() - 2) + docs_weight(
                items.skip(2),
                tab,
            ));
            lemma_all_within_push(below, remaining, tab, limit);
            lemma_all_within_push(below.push(remaining), sep, tab, limit);
            lemma_all_within_push(below.push(remaining).push(sep), content, tab, limit);
        }
    }
}

/// Every step keeps the bounds.
pub proof fn lemma_step_within(m: Machine, layout: Layout, limit: nat)
    requires
        !done(m),
        within(m, layout.tab_width, limit),
    ensures
        within(step(m, layout), layout.tab_width, limit),
{
    let tab = layout.tab_width;
    lemma_step_decreases(m, layout);
    if m.cmds.len() == 0 {
        lemma_reverse_weight(m.suffixes, tab);
        lemma_all_within_reverse(m.suffixes, tab, limit);
    } else {
        let c = m.cmds.last();
        let below = m.cmds.drop_last();
        let width = layout.print_width - m.column;
        assert(cmd_within(c, tab, limit));
        assert(all_within(below, tab, limit)) by {
            assert forall|i: int| 0 <= i < below.len() implies cmd_within(
                #[trigger] below[i],
                tab,
                limit,
            ) by {
                assert(below[i] == m.cmds[i]);
            }
        }
        match c.doc {
            DocView::Concat(docs) => {
                lemma_stack_weight_add(below, children(docs, c.indent, c.mode), tab);
                lemma_children_weight(docs, c.indent, c.mode, tab);
                lemma_all_within_children(docs, c.indent, c.mode, tab, limit);
                lemma_all_within_add(below, children(docs, c.indent, c.mode), tab, limit);
            },
            DocView::Indent(d) => {
                let n = Command { indent: c.indent.deeper(), doc: *d, ..c };
                lemma_stack_weight_push(below, n, tab);
                assert(c.indent.deeper().width(tab) == c.indent.width(tab) + tab)
                    by (nonlinear_arith)
                    requires
                        c.indent.deeper().stops == c.indent.stops + 1,
                        c.indent.deeper().columns == c.indent.columns,
                        c.indent.deeper().width(tab) == c.indent.deeper().stops * tab
                            + c.indent.deeper().columns,
                        c.indent.width(tab) == c.indent.stops * tab + c.indent.columns,
                ;
                lemma_all_within_push(below, n, tab, limit);
            },
            DocView::Align(k, d) => {
                let n = Command { indent: c.indent.aligned(k), doc: *d, ..c };
                lemma_stack_weight_push(below, n, tab);
                lemma_all_within_push(below, n, tab, limit);
            },
            DocView::Group { id, contents, should_break, expanded_states } => {
                let (mode, doc) = group_choice(
                    *contents,
                    should_break,
                    expanded_states,
                    c,
                    below,
                    width,
                    m.modes,
                );
                lemma_group_choice(
                    *contents,
                    should_break,
                    expanded_states,
                    c,
                    below,
                    width,
                    m.modes,
                    tab,
                );
                lemma_stack_weight_push(below, Command { mode, doc, ..c }, tab);
                lemma_all_within_push(below, Command { mode, doc, ..c }, tab, limit);
            },
            DocView::IfBreak { when_break, when_flat, target_group } => {
                lemma_stack_weight_push(below, Command { doc: *when_break, ..c }, tab);
                lemma_stack_weight_push(below, Command { doc: *when_flat, ..c }, tab);
                lemma_all_within_push(below, Command { doc: *when_break, ..c }, tab, limit);
                lemma_all_within_push(below, Command { doc: *when_flat, ..c }, tab, limit);
            },
            DocView::Line(kind) => {
                if !(c.mode == Mode::Flat && !kind.forced()) && m.suffixes.len() > 0 {
                    lemma_stack_weight_add(m.cmds, m.suffixes.reverse(), tab);
                    lemma_reverse_weight(m.suffixes, tab);
                    lemma_all_within_reverse(m.suffixes, tab, limit);
                    lemma_all_within_add(m.cmds, m.suffixes.reverse(), tab, limit);
                }
            },
            DocView::LineSuffix(d) => {
                lemma_stack_weight_push(m.suffixes, Command { doc: *d, ..c }, tab);
                lemma_all_within_push(m.suffixes, Command { doc: *d, ..c }, tab, limit);
            },
            DocView::Fill(items) => {
                lemma_fill_push(items, c, below, width, m.modes, tab);
                lemma_fill_within(items, c, below, width, m.modes, tab, limit);
            },
            _ => {},
        }
    }
}

} // verus!
