//! What holds of the printer as a whole, stated over its mathematical model
//! and proved.

use crate::comments::{
    closing_docs, comment_view, hardline, inside_until, leading_until, separator,
    trailing_until, Comment,
};
use crate::doc::DocView;
use crate::fits::{fits, FitState};
use crate::flat::{
    lemma_fits_move, lemma_line_run, run_line, tame, tame_stack,
    flat_text, flat_width, flowing, lemma_fits_is_width, lemma_flat_push, lemma_flowing_is_plain,
    lemma_flowing_run, lemma_linear_is_plain, lemma_linear_push, lemma_linear_run,
    lemma_width_push, linear, plain, run_until, stack_flat_text, trimless_stack,
};
use crate::layout::{
    indent_text, normalized, Command, Indentation, Layout, Mode,
};
use crate::machine::{done, flat, run, step, Machine};
use crate::options::{comma_view, PrettierOptions, TrailingComma};
use crate::propagate::{
    any_forces_break, forces_break, lemma_propagated_all_weight, lemma_propagated_weight,
    propagated, propagated_all,
};
use crate::validate::{scan, scan_all, verdict, Scan};
use crate::reconcile::{sequence, ElementView};
use crate::source::next_line_empty;
use crate::{formatted, outcome};
use vstd::prelude::*;
use vstd::utf8::decode_utf8;

verus! {

/// The same program, source text, comments and options give the same text,
/// and the same refusal where they are refused.
pub proof fn law_same_input_same_output(
    source: (Seq<u8>, Seq<u8>),
    trivia: (Seq<Comment>, Seq<Comment>),
    cursor: (nat, nat),
    options: (PrettierOptions, PrettierOptions),
    program: (Seq<ElementView>, Seq<ElementView>),
)
    requires
        source.0 == source.1,
        trivia.0 == trivia.1,
        cursor.0 == cursor.1,
        options.0 == options.1,
        program.0 == program.1,
    ensures
        formatted(source.0, trivia.0, cursor.0, options.0, program.0) == formatted(
            source.1,
            trivia.1,
            cursor.1,
            options.1,
            program.1,
        ),
        outcome(source.0, trivia.0, cursor.0, options.0, program.0) == outcome(
            source.1,
            trivia.1,
            cursor.1,
            options.1,
            program.1,
        ),
{
}

/// The printer meets, as the top of its stack, a group that is not marked
/// broken, has no expanded states and holds a plain document.
pub open spec fn meets_plain_group(m: Machine) -> bool {
    &&& m.cmds.len() > 0
    &&& m.cmds.last().doc matches DocView::Group { contents, should_break, expanded_states, .. }
        && !should_break && expanded_states is None && plain(*contents)
}

/// Wherever the printer renders a plain group flat, the flat width of its
/// contents is at most the line width less the current column.
pub proof fn law_flat_group_is_within_width(m: Machine, layout: Layout)
    requires
        meets_plain_group(m),
        step(m, layout).cmds.last().mode == Mode::Flat,
    ensures
        flat_width(*m.cmds.last().doc->Group_contents, m.modes) <= layout.print_width - m.column,
{
    let c = m.cmds.last();
    let below = m.cmds.drop_last();
    let contents = *c.doc->Group_contents;
    let first = seq![flat(c, contents)];
    assert(first =~= Seq::<Command>::empty().push(flat(c, contents)));
    lemma_width_push(Seq::empty(), flat(c, contents), m.modes);
    lemma_fits_is_width(
        FitState {
            cmds: first,
            rest_len: below.len(),
            width: layout.print_width - m.column,
            trailing: 0,
        },
        below,
        false,
        m.modes,
    );
}

/// The printer renders a plain group with nothing after it flat exactly
/// where the flat width of its contents is at most the line width less the
/// current column, and broken otherwise.
pub proof fn law_group_fits_by_width(m: Machine, layout: Layout)
    requires
        meets_plain_group(m),
        m.cmds.len() == 1,
    ensures
        step(m, layout).cmds.len() == 1,
        step(m, layout).cmds[0].doc == *m.cmds[0].doc->Group_contents,
        step(m, layout).cmds[0].mode == Mode::Flat <==> flat_width(
            *m.cmds[0].doc->Group_contents,
            m.modes,
        ) <= layout.print_width - m.column,
        step(m, layout).cmds[0].mode == Mode::Break <==> flat_width(
            *m.cmds[0].doc->Group_contents,
            m.modes,
        ) > layout.print_width - m.column,
{
    let c = m.cmds.last();
    let below = m.cmds.drop_last();
    let contents = *c.doc->Group_contents;
    let first = seq![flat(c, contents)];
    assert(first =~= Seq::<Command>::empty().push(flat(c, contents)));
    lemma_width_push(Seq::empty(), flat(c, contents), m.modes);
    assert(below.len() == 0);
    lemma_fits_is_width(
        FitState { cmds: first, rest_len: 0, width: layout.print_width - m.column, trailing: 0 },
        below,
        false,
        m.modes,
    );
}

/// A group of linear contents that the printer renders flat goes on the
/// current line. Once the stack is down to what
/// lay under the group, the flat text of the contents is out, and the column
/// has advanced by their flat width and is at most the line width.
pub proof fn law_flat_group_goes_on_the_line(m: Machine, layout: Layout)
    requires
        m.cmds.len() > 0,
        m.cmds.last().doc matches DocView::Group { contents, should_break, expanded_states, .. }
            && !should_break && expanded_states is None && linear(*contents),
        step(m, layout).cmds.last().mode == Mode::Flat,
    ensures
        ({
            let contents = *m.cmds.last().doc->Group_contents;
            let after = run_until(step(m, layout), layout, (m.cmds.len() - 1) as nat);
            &&& after.out == m.out + flat_text(contents, step(m, layout).modes, layout.newline)
            &&& after.column == m.column + flat_width(contents, step(m, layout).modes)
            &&& after.cmds == m.cmds.drop_last()
            &&& after.suffixes == m.suffixes
            &&& flat_width(contents, m.modes) <= layout.print_width - m.column
        }),
{
    lemma_linear_is_plain(*m.cmds.last().doc->Group_contents);
    law_flat_group_is_within_width(m, layout);
    let c = m.cmds.last();
    let base = m.cmds.drop_last();
    let contents = *c.doc->Group_contents;
    let next = step(m, layout);
    let top = Command { mode: Mode::Flat, doc: contents, ..c };
    assert(next.cmds =~= base.push(top));
    assert(base.push(top) =~= base + seq![top]);
    assert(seq![top] =~= Seq::<Command>::empty().push(top));
    lemma_linear_push(Seq::empty(), top, next.modes, layout.newline);
    lemma_linear_run(next, layout, base, seq![top]);
    assert(stack_flat_text(seq![top], next.modes, layout.newline) =~= flat_text(
        contents,
        next.modes,
        layout.newline,
    ));
}

/// A group without a handle that the printer renders flat goes on the
/// current line with every group that it holds, provided that its contents are flowing and that nothing
/// under it on the stack holds a `Trim`. Once the stack is down to what lay
/// under the group, the flat text of the contents is out, and the column
/// has advanced by their flat width and is at most the line width.
pub proof fn law_flat_nested_groups_go_on_the_line(m: Machine, layout: Layout)
    requires
        m.cmds.len() > 0,
        m.cmds.last().doc matches DocView::Group { id, contents, should_break, expanded_states }
            && id is None && !should_break && expanded_states is None && flowing(*contents),
        trimless_stack(m.cmds.drop_last()),
        step(m, layout).cmds.last().mode == Mode::Flat,
    ensures
        ({
            let contents = *m.cmds.last().doc->Group_contents;
            let after = run_until(step(m, layout), layout, (m.cmds.len() - 1) as nat);
            &&& after.out == m.out + flat_text(contents, m.modes, layout.newline)
            &&& after.column == m.column + flat_width(contents, m.modes)
            &&& after.cmds == m.cmds.drop_last()
            &&& after.suffixes == m.suffixes
            &&& after.modes == m.modes
            &&& flat_width(contents, m.modes) <= layout.print_width - m.column
        }),
{
    lemma_flowing_is_plain(*m.cmds.last().doc->Group_contents);
    law_flat_group_is_within_width(m, layout);
    let c = m.cmds.last();
    let base = m.cmds.drop_last();
    let contents = *c.doc->Group_contents;
    let next = step(m, layout);
    let top = Command { mode: Mode::Flat, doc: contents, ..c };
    assert(next.cmds =~= base.push(top));
    assert(base.push(top) =~= base + seq![top]);
    assert(seq![top] =~= Seq::<Command>::empty().push(top));
    assert(top == flat(c, contents));
    lemma_flat_push(Seq::empty(), top, m.modes, layout.newline);
    lemma_flowing_run(next, layout, base, seq![top], 0);
    assert(stack_flat_text(seq![top], m.modes, layout.newline) =~= flat_text(
        contents,
        m.modes,
        layout.newline,
    ));
}

/// On a line on which the printer renders a group flat, it stays within the
/// line width from that group to the end of the line: a line that runs past
/// the line width holds no group that was rendered flat. The width is that
/// of the line without its line suffixes, and this holds where every
/// document on the stack is tame.
pub proof fn law_line_of_a_flat_group_stays_within_width(m: Machine, layout: Layout)
    requires
        m.cmds.len() > 0,
        tame_stack(m.cmds),
        m.cmds.last().doc matches DocView::Group { should_break, .. } && !should_break,
        step(m, layout).cmds.last().mode == Mode::Flat,
    ensures
        m.column <= run_line(step(m, layout), layout).column <= layout.print_width,
{
    let c = m.cmds.last();
    let below = m.cmds.drop_last();
    let contents = *c.doc->Group_contents;
    let none = Seq::<Command>::empty();
    let x = flat(c, contents);
    let next = step(m, layout);
    let width = layout.print_width - m.column;
    assert(tame(c.doc));
    assert(next.cmds =~= below.push(x));
    assert(fits(seq![x], below, width, false, m.modes));
    assert(none + below =~= below);
    assert(below + seq![x] =~= below.push(x));
    lemma_fits_move(below, seq![x], none, width, 0, false, m.modes);
    assert(tame_stack(next.cmds)) by {
        assert forall|i: int| 0 <= i < next.cmds.len() implies tame((#[trigger] next.cmds[i]).doc) by {
            if i < below.len() {
                assert(next.cmds[i] == m.cmds[i]);
            }
        }
    }
    lemma_line_run(next, layout, 0);
}

/// A group that is marked broken is rendered broken, and a group without
/// expanded states that is not marked is rendered flat exactly where the
/// width check accepts its contents together with what follows on the line.
pub proof fn law_group_mode(m: Machine, layout: Layout)
    requires
        m.cmds.len() > 0,
        m.cmds.last().doc is Group,
    ensures
        ({
            let c = m.cmds.last();
            let next = step(m, layout).cmds.last();
            &&& step(m, layout).cmds.len() == m.cmds.len()
            &&& c.doc->should_break ==> next.mode == Mode::Break && next.doc
                == *c.doc->Group_contents
            &&& !c.doc->should_break && c.doc->expanded_states is None ==> next.doc
                == *c.doc->Group_contents && (next.mode == Mode::Flat <==> fits(
                seq![flat(c, *c.doc->Group_contents)],
                m.cmds.drop_last(),
                layout.print_width - m.column,
                false,
                m.modes,
            ))
        }),
{
}

/// How many line feeds start `text`.
pub open spec fn newline_run(text: Seq<char>) -> nat
    decreases text.len(),
{
    if text.len() > 0 && text[0] == '\n' {
        1 + newline_run(text.skip(1))
    } else {
        0
    }
}

/// Two elements are parted by one hard line, and by exactly one more where
/// the look-ahead finds a blank line; nothing else stands between them.
pub proof fn law_separator_is_one_or_two_lines(bytes: Seq<u8>, end: u32)
    ensures
        separator(bytes, end).len() == if next_line_empty(bytes, end as int) {
            2nat
        } else {
            1nat
        },
        forall|i: int| 0 <= i < separator(bytes, end).len() ==> separator(bytes, end)[i] == hardline(),
{
}

/// Where the line break comes right after an element: however many blank
/// lines follow it in the source, the output has one, and it has none where
/// the source has none.
pub proof fn law_blank_lines_collapse(bytes: Seq<u8>, end: u32)
    requires
        decode_utf8(bytes.subrange(end as int, bytes.len() as int)).len() > 0,
        decode_utf8(bytes.subrange(end as int, bytes.len() as int))[0] == '\n',
    ensures
        ({
            let after = decode_utf8(bytes.subrange(end as int, bytes.len() as int)).skip(1);
            separator(bytes, end).len() - 1 == if newline_run(after) >= 1 {
                1int
            } else {
                0int
            }
        }),
{
    let tail = decode_utf8(bytes.subrange(end as int, bytes.len() as int));
    let after = tail.skip(1);
    if tail.len() > 1 {
        assert(after[0] == tail[1]);
    }
}

/// What parts two elements prints as one line break, and as two where the
/// look-ahead finds a blank line: the one blank line of the output.
pub proof fn law_separator_prints_one_or_two_breaks(bytes: Seq<u8>, end: u32, layout: Layout)
    ensures
        printed_alone(DocView::Concat(separator(bytes, end)), Mode::Break, layout) == if next_line_empty(
            bytes,
            end as int,
        ) {
            layout.newline + layout.newline
        } else {
            layout.newline
        },
{
    let root = Indentation::root();
    let doc = DocView::Concat(separator(bytes, end));
    let c = Command { indent: root, mode: Mode::Break, doc };
    let line = Command { indent: root, mode: Mode::Break, doc: hardline() };
    let none = Seq::<Command>::empty();
    let m0 = Machine {
        out: Seq::empty(),
        column: 1,
        cmds: seq![c],
        suffixes: Seq::empty(),
        modes: Map::empty(),
    };
    assert(root.width(layout.tab_width) == 0) by (nonlinear_arith)
        requires
            root.stops == 0,
            root.columns == 0,
            root.width(layout.tab_width) == root.stops * layout.tab_width + root.columns,
    ;
    assert(indent_text(root, layout) =~= Seq::<char>::empty());
    assert(seq![c].drop_last() =~= none);
    let m1 = step(m0, layout);
    assert(run(m0, layout) == run(m1, layout));
    if next_line_empty(bytes, end as int) {
        assert(m1.cmds =~= seq![line, line]);
        assert(m1.cmds.drop_last() =~= seq![line]);
        let m2 = step(m1, layout);
        assert(m2.cmds =~= seq![line]);
        assert(m2.cmds.drop_last() =~= none);
        assert(m2.out =~= layout.newline);
        let m3 = step(m2, layout);
        assert(m3.cmds =~= none);
        assert(m3.out =~= layout.newline + layout.newline);
        assert(done(m3));
        assert(run(m3, layout) == m3);
        assert(run(m2, layout) == run(m3, layout));
        assert(run(m1, layout) == run(m2, layout));
    } else {
        assert(m1.cmds =~= seq![line]);
        assert(m1.cmds.drop_last() =~= none);
        let m2 = step(m1, layout);
        assert(m2.cmds =~= none);
        assert(m2.out =~= layout.newline);
        assert(done(m2));
        assert(run(m2, layout) == m2);
        assert(run(m1, layout) == run(m2, layout));
    }
}

/// A comment that closes a text is parted from what stands before it as
/// two elements are: by one hard line, and by one more where the look-ahead
/// finds a blank line. The same holds between two such comments.
pub proof fn law_closing_comment_keeps_its_blank_line(
    bytes: Seq<u8>,
    trivia: Seq<Comment>,
    from: nat,
    to: nat,
    before: Option<u32>,
)
    requires
        from < to,
    ensures
        closing_docs(bytes, trivia, from, to, before) == closing_docs(
            bytes,
            trivia,
            from,
            (to - 1) as nat,
            before,
        ) + (if to - 1 > from {
            separator(bytes, trivia[to - 2].end)
        } else {
            match before {
                Some(end) => separator(bytes, end),
                None => Seq::empty(),
            }
        }) + seq![comment_view(bytes, trivia[to - 1])],
{
}

/// The text that a document gives when it is printed alone in `mode`.
pub open spec fn printed_alone(doc: DocView, mode: Mode, layout: Layout) -> Seq<char> {
    run(
        Machine {
            out: Seq::empty(),
            column: 1,
            cmds: seq![Command { indent: Indentation::root(), mode, doc }],
            suffixes: Seq::empty(),
            modes: Map::empty(),
        },
        layout,
    ).out
}

/// `All` prints the trailing comma at both levels, `ES5` only where the
/// fifth edition allows one, `Never` at neither.
pub proof fn law_comma_table(level_all: bool)
    ensures
        TrailingComma::All.prints_comma(level_all),
        TrailingComma::ES5.prints_comma(level_all) == !level_all,
        !TrailingComma::Never.prints_comma(level_all),
{
}

/// The trailing comma comes out exactly where the policy prints one and the
/// enclosing group is broken.
pub proof fn law_comma_only_when_broken(
    policy: TrailingComma,
    level_all: bool,
    mode: Mode,
    layout: Layout,
)
    ensures
        printed_alone(comma_view(policy, level_all), mode, layout) == if policy.prints_comma(
            level_all,
        ) && mode == Mode::Break {
            seq![',']
        } else {
            Seq::<char>::empty()
        },
{
    let doc = comma_view(policy, level_all);
    let c = Command { indent: Indentation::root(), mode, doc };
    let m0 = Machine {
        out: Seq::empty(),
        column: 1,
        cmds: seq![c],
        suffixes: Seq::empty(),
        modes: Map::empty(),
    };
    let nothing = Seq::<char>::empty();
    assert(normalized(nothing, layout.newline) =~= nothing);
    assert(seq![','].drop_last() =~= nothing);
    assert(normalized(seq![','], layout.newline) =~= seq![',']);
    assert(seq![c].drop_last() =~= Seq::<Command>::empty());
    if policy.prints_comma(level_all) {
        let picked = if mode == Mode::Break {
            DocView::Text(seq![','])
        } else {
            DocView::Text(nothing)
        };
        let m1 = step(m0, layout);
        assert(m1.cmds =~= seq![Command { doc: picked, ..c }]);
        assert(m1.cmds.drop_last() =~= Seq::<Command>::empty());
        let m2 = step(m1, layout);
        assert(m2.cmds =~= Seq::<Command>::empty());
        assert(done(m2));
        assert(run(m2, layout) == m2);
        assert(run(m1, layout) == run(m2, layout));
        assert(run(m0, layout) == run(m1, layout));
        assert(m2.out =~= if mode == Mode::Break {
            seq![',']
        } else {
            nothing
        });
    } else {
        let m1 = step(m0, layout);
        assert(m1.cmds =~= Seq::<Command>::empty());
        assert(done(m1));
        assert(run(m1, layout) == m1);
        assert(run(m0, layout) == run(m1, layout));
        assert(m1.out =~= nothing);
    }
}

/// The cursor moves forward only: the comments that lead a node, lie inside
/// it or trail it are taken from the cursor on, and none before it is taken
/// again.
pub proof fn law_cursor_never_goes_back(
    bytes: Seq<u8>,
    trivia: Seq<Comment>,
    cursor: nat,
    at: u32,
)
    requires
        cursor <= trivia.len(),
    ensures
        cursor <= leading_until(trivia, cursor, at) <= trivia.len(),
        cursor <= inside_until(trivia, cursor, at) <= trivia.len(),
        cursor <= trailing_until(bytes, trivia, cursor, at) <= trivia.len(),
    decreases trivia.len() - cursor,
{
    if cursor < trivia.len() {
        law_cursor_never_goes_back(bytes, trivia, cursor + 1, at);
        law_cursor_never_goes_back(bytes, trivia, cursor + 1, trivia[cursor as int].end);
    }
}

/// The same of a whole run of elements: the cursor after them is not before
/// the cursor at their start.
pub proof fn law_sequence_moves_forward(
    bytes: Seq<u8>,
    trivia: Seq<Comment>,
    cursor: nat,
    elements: Seq<ElementView>,
)
    requires
        cursor <= trivia.len(),
    ensures
        cursor <= sequence(bytes, trivia, cursor, elements).cursor <= trivia.len(),
    decreases elements.len(),
{
    if elements.len() > 0 {
        law_sequence_moves_forward(bytes, trivia, cursor, elements.drop_last());
        let before = sequence(bytes, trivia, cursor, elements.drop_last());
        let e = elements.last();
        law_cursor_never_goes_back(bytes, trivia, before.cursor, e.start);
        let lead = leading_until(trivia, before.cursor, e.start);
        law_cursor_never_goes_back(bytes, trivia, lead, e.end);
        let inner = inside_until(trivia, lead, e.end);
        law_cursor_never_goes_back(bytes, trivia, inner, e.end);
    }
}

/// Marking is settled in one pass: the mark of a document is the same after
/// the pass, and a second pass changes nothing.
pub proof fn law_propagation_settles(doc: DocView)
    ensures
        forces_break(propagated(doc)) == forces_break(doc),
        propagated(propagated(doc)) == propagated(doc),
    decreases doc,
{
    match doc {
        DocView::Concat(docs) => {
            law_propagation_settles_all(docs);
        },
        DocView::Fill(docs) => {
            law_propagation_settles_all(docs);
        },
        DocView::Indent(d) => {
            law_propagation_settles(*d);
        },
        DocView::Align(_, d) => {
            law_propagation_settles(*d);
        },
        DocView::LineSuffix(d) => {
            law_propagation_settles(*d);
        },
        DocView::IfBreak { when_break, when_flat, .. } => {
            law_propagation_settles(*when_break);
            law_propagation_settles(*when_flat);
        },
        DocView::Group { contents, expanded_states, .. } => {
            law_propagation_settles(*contents);
            match expanded_states {
                Some(states) => {
                    law_propagation_settles_all(states);
                },
                None => {},
            }
        },
        _ => {},
    }
}

/// [`law_propagation_settles`] of each of a run of documents.
pub proof fn law_propagation_settles_all(docs: Seq<DocView>)
    ensures
        any_forces_break(propagated_all(docs)) == any_forces_break(docs),
        propagated_all(propagated_all(docs)) == propagated_all(docs),
    decreases docs,
{
    if docs.len() > 0 {
        assert(propagated_all(docs).drop_last() =~= propagated_all(docs.drop_last()));
        assert(propagated_all(docs).last() == propagated(docs.last()));
        law_propagation_settles_all(docs.drop_last());
        law_propagation_settles(docs.last());
    }
    assert forall|i: int| 0 <= i < docs.len() implies propagated(propagated(docs[i])) == propagated(
        docs[i],
    ) by {
        law_propagation_settles(docs[i]);
    }
    assert(propagated_all(propagated_all(docs)) =~= propagated_all(docs));
}

/// Marking changes no defect: the search for a defect goes through a
/// document and through the same document with its groups marked alike.
pub proof fn law_propagation_keeps_defects(doc: DocView, s: Scan)
    ensures
        scan(propagated(doc), s) == scan(doc, s),
    decreases doc,
{
    let entered = Scan { next: s.next + 1, ..s };
    if s.defect is None {
        match doc {
            DocView::Concat(docs) => {
                law_propagation_keeps_defects_of_all(docs, entered);
            },
            DocView::Fill(docs) => {
                lemma_propagated_all_weight(docs, 0);
                law_propagation_keeps_defects_of_all(docs, entered);
            },
            DocView::Indent(d) => {
                law_propagation_keeps_defects(*d, entered);
            },
            DocView::Align(_, d) => {
                law_propagation_keeps_defects(*d, entered);
            },
            DocView::LineSuffix(d) => {
                law_propagation_keeps_defects(*d, entered);
            },
            DocView::IfBreak { when_break, when_flat, .. } => {
                law_propagation_keeps_defects(*when_break, entered);
                law_propagation_keeps_defects(*when_flat, scan(*when_break, entered));
            },
            DocView::Group { id, contents, expanded_states, .. } => {
                let inside_from = Scan {
                    seen: match id {
                        Some(handle) => s.seen.insert(handle),
                        None => s.seen,
                    },
                    ..entered
                };
                law_propagation_keeps_defects(*contents, inside_from);
                match expanded_states {
                    Some(states) => {
                        law_propagation_keeps_defects_of_all(states, scan(*contents, inside_from));
                    },
                    None => {},
                }
            },
            _ => {},
        }
    }
}

/// [`law_propagation_keeps_defects`] of a run of documents.
pub proof fn law_propagation_keeps_defects_of_all(docs: Seq<DocView>, s: Scan)
    ensures
        scan_all(propagated_all(docs), s) == scan_all(docs, s),
    decreases docs,
{
    if docs.len() > 0 {
        assert(propagated_all(docs).drop_last() =~= propagated_all(docs.drop_last()));
        assert(propagated_all(docs).last() == propagated(docs.last()));
        law_propagation_keeps_defects_of_all(docs.drop_last(), s);
        law_propagation_keeps_defects(docs.last(), scan_all(docs.drop_last(), s));
    }
}

/// The check says the same of a document before the pass and after it: it
/// takes both or refuses both, and for the same reason.
pub proof fn law_propagation_keeps_the_verdict(doc: DocView, tab: nat)
    ensures
        verdict(propagated(doc), tab) == verdict(doc, tab),
{
    lemma_propagated_weight(doc, tab);
    law_propagation_keeps_defects(doc, Scan { seen: Set::empty(), next: 0, defect: None });
}

} // verus!
