//! The printer: one forward pass over a document with an explicit work
//! stack, which decides each group by the width check and never looks back.

use crate::doc::{
    doc_view, docs_view, lemma_docs_view, states_view, weight, Doc, DocView, LineKind,
};
use crate::fits::{fit_state, fit_step, fits, fits_from, fits_in, lemma_pushed, FitStep};
use crate::layout::{
    blank_run, cmds_view, cmds_wf, indent_text, lookup_mode, normalized, push_children,
    repeated, stack_weight, whole, Cmd, Command, Indent, Layout, Mode,
};
use crate::machine::{
    cmd_within, done, fill_push, flat, group_choice, lemma_start_within, lemma_step_decreases,
    lemma_step_within, measure, pick_state, rendered, run, start, step, trim_count, within,
    Machine,
};
use crate::laws::{law_propagation_keeps_defects, law_propagation_settles};
use crate::options::{EndOfLine, PrettierOptions};
use crate::propagate::{lemma_propagated_weight, propagate_breaks, propagated};
use crate::validate::{well_formed, Scan};
use std::collections::HashMap;
use vstd::prelude::*;
use vstd::std_specs::iter::IteratorSpec;
use vstd::string::StrSliceExecFns;
use vstd::string::StringSliceAdditionalSpecFns;

verus! {

/// The heaviest document that the printer takes: twice this weight, and one
/// more, fits every unsigned machine word.
pub const MAX_WEIGHT: usize = 0x7fff_ffff;

/// What the printer reads of the options, with the line break settled.
#[derive(Clone, Copy, Debug)]
pub struct Settings {
    pub print_width: usize,
    pub tab_width: usize,
    pub use_tabs: bool,
    pub newline: EndOfLine,
}

impl View for Settings {
    type V = Layout;

    open spec fn view(&self) -> Layout {
        Layout {
            print_width: self.print_width as nat,
            tab_width: self.tab_width as nat,
            use_tabs: self.use_tabs,
            newline: self.newline.chars(),
        }
    }
}

/// The executable state of the printer: see [`Machine`].
pub struct PrintState<'d, 'a> {
    /// The text that is out.
    pub out: Vec<char>,
    /// The column of the next character, counted from 1.
    pub column: usize,
    /// The work stack, top last.
    pub cmds: Vec<Cmd<'d, 'a>>,
    /// The line suffixes that wait for the next newline, oldest first.
    pub suffixes: Vec<Cmd<'d, 'a>>,
    /// The mode of each group that has a handle and was reached.
    pub modes: HashMap<u32, Mode>,
}

impl<'d, 'a> View for PrintState<'d, 'a> {
    type V = Machine;

    open spec fn view(&self) -> Machine {
        Machine {
            out: self.out@,
            column: self.column as nat,
            cmds: cmds_view(self.cmds@),
            suffixes: cmds_view(self.suffixes@),
            modes: self.modes@,
        }
    }
}

impl<'d, 'a> PrintState<'d, 'a> {
    /// Every command on the stack and in the buffer is well formed.
    pub open spec fn wf(self) -> bool {
        cmds_wf(self.cmds@) && cmds_wf(self.suffixes@)
    }
}

/// Trusted, of the standard library: `String::push` appends the character
/// to the end of the string and changes nothing else of it.
pub assume_specification[ String::push ](s: &mut String, ch: char)
    ensures
        final(s)@ == old(s)@.push(ch),
;

/// The string that holds the characters `chars`.
pub fn collect(chars: &Vec<char>) -> (s: String)
    ensures
        s@ == chars@,
{
    let mut s = String::new();
    let mut i: usize = 0;
    while i < chars.len()
        invariant
            i <= chars.len(),
            s@ == chars@.take(i as int),
        decreases chars.len() - i,
    {
        s.push(chars[i]);
        i = i + 1;
        assert(chars@.take(i as int) =~= chars@.take(i - 1).push(chars@[i - 1]));
    }
    assert(chars@.take(i as int) =~= chars@);
    s
}

/// Appends `text` with each line feed written as `newline`.
pub fn emit_text(out: &mut Vec<char>, text: &str, newline: EndOfLine)
    ensures
        final(out)@ == old(out)@ + normalized(text@, newline.chars()),
{
    broadcast use vstd::string::group_string_axioms;

    let mut it = text.chars();
    let ghost mut seen: Seq<char> = Seq::empty();
    assert(seen + it.remaining() =~= text@);
    assert(out@ =~= old(out)@ + normalized(seen, newline.chars()));
    loop
        invariant
            seen + it.remaining() == text@,
            out@ == old(out)@ + normalized(seen, newline.chars()),
        decreases text@.len() - seen.len(),
    {
        let ghost before = it.remaining();
        let ghost out0 = out@;
        match it.next() {
            Some(c) => {
                proof {
                    assert(seen.push(c).drop_last() =~= seen);
                    assert(seen.push(c) + before.drop_first() =~= seen + before);
                }
                if c == '\n' {
                    newline.write_to(out);
                } else {
                    out.push(c);
                }
                proof {
                    assert(out@ =~= old(out)@ + normalized(seen.push(c), newline.chars()));
                    seen = seen.push(c);
                }
            },
            None => {
                assert(seen =~= text@);
                return ;
            },
        }
    }
}

/// Appends `n` copies of `c`.
pub fn emit_repeated(out: &mut Vec<char>, c: char, n: usize)
    ensures
        final(out)@ == old(out)@ + repeated(c, n as nat),
{
    let mut i: usize = 0;
    assert(out@ =~= old(out)@ + repeated(c, 0));
    while i < n
        invariant
            i <= n,
            out@ == old(out)@ + repeated(c, i as nat),
        decreases n - i,
    {
        out.push(c);
        i = i + 1;
        assert(out@ =~= old(out)@ + repeated(c, i as nat));
    }
}

/// Appends the characters that indent a line.
pub fn emit_indent(out: &mut Vec<char>, indent: Indent, settings: &Settings)
    requires
        indent.stops * settings.tab_width + indent.columns <= usize::MAX,
    ensures
        final(out)@ == old(out)@ + indent_text(indent@, settings@),
{
    if settings.use_tabs {
        emit_repeated(out, '\t', indent.stops);
        emit_repeated(out, ' ', indent.columns);
        assert(out@ =~= old(out)@ + indent_text(indent@, settings@));
    } else {
        assert(indent.stops * settings.tab_width <= usize::MAX) by (nonlinear_arith)
            requires
                indent.stops * settings.tab_width + indent.columns <= usize::MAX,
                indent.columns >= 0,
        ;
        emit_repeated(out, ' ', indent.stops * settings.tab_width + indent.columns);
    }
}

/// Erases the blanks that end `out`, as far as they stand on the current
/// line, and returns how many they were.
pub fn trim(out: &mut Vec<char>, column: usize) -> (k: usize)
    ensures
        k == trim_count(old(out)@, column as nat),
        final(out)@ == old(out)@.take(old(out)@.len() - k),
{
    let mut k: usize = 0;
    assert(out@ =~= old(out)@.take(old(out)@.len() - 0));
    loop
        invariant
            k <= old(out)@.len(),
            out@ == old(out)@.take(old(out)@.len() - k),
            blank_run(old(out)@, 0) == k + blank_run(out@, 0),
            column > 0 ==> k < column,
            column == 0 ==> k == 0,
        decreases out@.len(),
    {
        if column == 0 || k + 1 >= column || out.len() == 0 {
            return k;
        }
        let last = out[out.len() - 1];
        if !(last == ' ' || last == '\t') {
            return k;
        }
        let ghost before = out@;
        out.pop();
        k = k + 1;
        proof {
            assert(out@ =~= before.drop_last());
            assert(out@ =~= old(out)@.take(old(out)@.len() - k));
        }
    }
}

/// Moves the pending line suffixes onto the work stack, the oldest on top.
pub fn flush<'d, 'a>(cmds: &mut Vec<Cmd<'d, 'a>>, suffixes: &mut Vec<Cmd<'d, 'a>>)
    requires
        cmds_wf(old(cmds)@),
        cmds_wf(old(suffixes)@),
    ensures
        cmds_wf(final(cmds)@),
        final(suffixes)@.len() == 0,
        cmds_view(final(cmds)@) == cmds_view(old(cmds)@) + cmds_view(old(suffixes)@).reverse(),
{
    let ghost all = cmds_view(suffixes@).reverse();
    assert(cmds_view(cmds@) =~= cmds_view(old(cmds)@) + all.take(0));
    while suffixes.len() > 0
        invariant
            cmds_wf(cmds@),
            cmds_wf(suffixes@),
            suffixes@.len() <= old(suffixes)@.len(),
            suffixes@ == old(suffixes)@.take(suffixes@.len() as int),
            all == cmds_view(old(suffixes)@).reverse(),
            cmds_view(cmds@) == cmds_view(old(cmds)@) + all.take(
                old(suffixes)@.len() - suffixes@.len(),
            ),
        decreases suffixes@.len(),
    {
        let ghost before = cmds@;
        let ghost n = suffixes@.len();
        let c = suffixes.pop().unwrap();
        proof {
            assert(c == old(suffixes)@[n - 1]);
            assert(c.wf());
            lemma_pushed(before, c);
            assert(all[old(suffixes)@.len() - n] == c@);
            assert(all.take(old(suffixes)@.len() - n + 1) =~= all.take(
                old(suffixes)@.len() - n,
            ).push(c@));
            assert(suffixes@ =~= old(suffixes)@.take(n - 1));
        }
        cmds.push(c);
    }
    assert(all.take(old(suffixes)@.len() as int) =~= all);
}

/// The width check at a column: nothing fits past the line width.
pub fn check<'d, 'a>(
    next: Vec<Cmd<'d, 'a>>,
    rest: &Vec<Cmd<'d, 'a>>,
    rest_len: usize,
    column: usize,
    print_width: usize,
    must_be_flat: bool,
    modes: &HashMap<u32, Mode>,
) -> (b: bool)
    requires
        cmds_wf(next@),
        cmds_wf(rest@),
        rest_len <= rest.len(),
    ensures
        b == fits(
            cmds_view(next@),
            cmds_view(rest@).take(rest_len as int),
            print_width - column,
            must_be_flat,
            modes@,
        ),
{
    if column > print_width {
        proof {
            let r = cmds_view(rest@).take(rest_len as int);
            let s = fit_state(cmds_view(next@), r.len(), print_width - column, 0);
            assert(fit_step(s, r, must_be_flat, modes@) == FitStep::Done(false));
            assert(!fits_from(s, r, must_be_flat, modes@));
        }
        false
    } else {
        fits_in(next, rest, rest_len, print_width - column, must_be_flat, modes)
    }
}

/// Executable form of [`group_choice`].
pub fn choose_group<'d, 'a>(
    c: Cmd<'d, 'a>,
    contents: &'d Doc<'a>,
    should_break: bool,
    states: &'d Option<Vec<Doc<'a>>>,
    rest: &Vec<Cmd<'d, 'a>>,
    column: usize,
    print_width: usize,
    modes: &HashMap<u32, Mode>,
) -> (r: (Mode, &'d Doc<'a>))
    requires
        cmds_wf(rest@),
    ensures
        (r.0, doc_view(*r.1)) == group_choice(
            doc_view(*contents),
            should_break,
            states_view(*states),
            c@,
            cmds_view(rest@),
            print_width - column,
            modes@,
        ),
{
    broadcast use lemma_docs_view;

    if should_break {
        return (Mode::Break, contents);
    }
    let ghost r = cmds_view(rest@);
    let ghost width = print_width - column;
    assert(r.take(rest.len() as int) =~= r);
    let first = vec![whole(c.indent, Mode::Flat, contents)];
    assert(cmds_view(first@) =~= seq![flat(c@, doc_view(*contents))]);
    if check(first, rest, rest.len(), column, print_width, false, modes) {
        return (Mode::Flat, contents);
    }
    match states {
        None => (Mode::Break, contents),
        Some(alternatives) => {
            if alternatives.len() == 0 {
                return (Mode::Break, contents);
            }
            let ghost views = docs_view(alternatives@);
            let mut i: usize = 0;
            while i < alternatives.len()
                invariant
                    i <= alternatives.len(),
                    cmds_wf(rest@),
                    r == cmds_view(rest@),
                    r.take(rest.len() as int) == r,
                    width == print_width - column,
                    views == docs_view(alternatives@),
                    views.len() > 0,
                    states_view(*states) == Some(views),
                    !should_break,
                    !fits(seq![flat(c@, doc_view(*contents))], r, width, false, modes@),
                    pick_state(views, 0, c@, r, width, modes@) == pick_state(
                        views,
                        i as nat,
                        c@,
                        r,
                        width,
                        modes@,
                    ),
                decreases alternatives.len() - i,
            {
                let next = vec![whole(c.indent, Mode::Flat, &alternatives[i])];
                assert(cmds_view(next@) =~= seq![flat(c@, views[i as int])]);
                if check(next, rest, rest.len(), column, print_width, false, modes) {
                    return (Mode::Flat, &alternatives[i]);
                }
                i = i + 1;
            }
            (Mode::Break, &alternatives[alternatives.len() - 1])
        },
    }
}

/// Executable form of [`fill_push`] for the fill `items`, met as command `c`.
pub fn push_fill<'d, 'a>(
    cmds: &mut Vec<Cmd<'d, 'a>>,
    c: Cmd<'d, 'a>,
    items: &'d Vec<Doc<'a>>,
    column: usize,
    print_width: usize,
    modes: &HashMap<u32, Mode>,
)
    requires
        cmds_wf(old(cmds)@),
        doc_view(*c.doc) == DocView::Fill(docs_view(items@)),
        c.skip <= items.len(),
    ensures
        cmds_wf(final(cmds)@),
        cmds_view(final(cmds)@) == fill_push(
            docs_view(items@).skip(c.skip as int),
            c@,
            cmds_view(old(cmds)@),
            print_width - column,
            modes@,
        ),
{
    broadcast use lemma_docs_view;

    let ghost left = docs_view(items@).skip(c.skip as int);
    let ghost below = cmds_view(cmds@);
    let ghost width = print_width - column;
    let n = items.len() - c.skip;
    if n == 0 {
        return ;
    }
    assert(below.take(0) =~= Seq::<Command>::empty());
    let first = vec![whole(c.indent, Mode::Flat, &items[c.skip])];
    assert(cmds_view(first@) =~= seq![flat(c@, left[0])]);
    let content_fits = check(first, cmds, 0, column, print_width, true, modes);
    let content_mode = if content_fits {
        Mode::Flat
    } else {
        Mode::Break
    };
    let content = whole(c.indent, content_mode, &items[c.skip]);
    if n == 1 {
        proof {
            lemma_pushed(cmds@, content);
        }
        cmds.push(content);
        return ;
    }
    if n == 2 {
        let separator = whole(c.indent, content_mode, &items[c.skip + 1]);
        proof {
            lemma_pushed(cmds@, separator);
            lemma_pushed(cmds@.push(separator), content);
        }
        cmds.push(separator);
        cmds.push(content);
        return ;
    }
    let pair_fits = if content_fits {
        let pair = vec![
            whole(c.indent, Mode::Flat, &items[c.skip + 2]),
            whole(c.indent, Mode::Flat, &items[c.skip + 1]),
            whole(c.indent, Mode::Flat, &items[c.skip]),
        ];
        assert(cmds_view(pair@) =~= seq![
            flat(c@, left[2]),
            flat(c@, left[1]),
            flat(c@, left[0]),
        ]);
        check(pair, cmds, 0, column, print_width, true, modes)
    } else {
        false
    };
    let separator_mode = if pair_fits {
        Mode::Flat
    } else {
        Mode::Break
    };
    let remaining = Cmd { indent: c.indent, mode: c.mode, doc: c.doc, skip: c.skip + 2 };
    let separator = whole(c.indent, separator_mode, &items[c.skip + 1]);
    proof {
        assert(docs_view(items@).skip(c.skip + 2) =~= left.skip(2));
        assert(remaining@ == (Command { doc: DocView::Fill(left.skip(2)), ..c@ }));
        assert(remaining.wf());
        lemma_pushed(cmds@, remaining);
        lemma_pushed(cmds@.push(remaining), separator);
        lemma_pushed(cmds@.push(remaining).push(separator), content);
    }
    cmds.push(remaining);
    cmds.push(separator);
    cmds.push(content);
}

/// The state of the printer before `c` was popped from its stack.
pub open spec fn unpopped<'d, 'a>(st: PrintState<'d, 'a>, c: Cmd<'d, 'a>) -> Machine {
    Machine { cmds: st@.cmds.push(c@), ..st@ }
}

/// The top of the stack of [`unpopped`] and what is below it.
pub proof fn lemma_unpopped<'d, 'a>(st: PrintState<'d, 'a>, c: Cmd<'d, 'a>)
    ensures
        unpopped(st, c).cmds.len() > 0,
        unpopped(st, c).cmds.last() == c@,
        unpopped(st, c).cmds.drop_last() == st@.cmds,
{
    assert(unpopped(st, c).cmds.drop_last() =~= st@.cmds);
}

/// Executable form of [`step`].
pub fn advance<'d, 'a>(st: &mut PrintState<'d, 'a>, settings: &Settings)
    requires
        old(st).wf(),
        !done(old(st)@),
        within(old(st)@, settings@.tab_width, MAX_WEIGHT as nat),
        settings.tab_width >= 1,
    ensures
        final(st).wf(),
        final(st)@ == step(old(st)@, settings@),
{
    let ghost m = st@;
    let ghost tab = settings@.tab_width;
    match st.cmds.pop() {
        None => {
            flush(&mut st.cmds, &mut st.suffixes);
            proof {
                assert(cmds_view(st.cmds@) =~= m.suffixes.reverse());
                assert(cmds_view(st.suffixes@) =~= Seq::<Command>::empty());
            }
        },
        Some(c) => {
            proof {
                assert(cmds_view(st.cmds@) =~= m.cmds.drop_last());
                assert(c@ == m.cmds.last());
                assert(m.cmds =~= cmds_view(st.cmds@).push(c@));
                assert(unpopped(*st, c) == m);
                assert(c.wf());
                assert(cmds_wf(st.cmds@));
                assert(cmd_within(c@, tab, MAX_WEIGHT as nat));
                assert(stack_weight(m.cmds, tab) == stack_weight(m.cmds.drop_last(), tab) + weight(
                    c@.doc,
                    tab,
                ));
                assert(c.indent.stops <= c.indent.stops * settings.tab_width) by (nonlinear_arith)
                    requires
                        settings.tab_width >= 1,
                ;
            }
            match c.doc {
                Doc::Text(t) => {
                    assert(doc_view(*c.doc) == DocView::Text(t@));
                    advance_text(st, c, t, settings);
                },
                Doc::Concat(docs) => {
                    assert(doc_view(*c.doc) == DocView::Concat(docs_view(docs@)));
                    advance_concat(st, c, docs, settings);
                },
                Doc::Indent(d) => {
                    assert(doc_view(*c.doc) == DocView::Indent(Box::new(doc_view(**d))));
                    let indent = Indent { stops: c.indent.stops + 1, columns: c.indent.columns };
                    advance_nested(st, c, indent, &**d, settings);
                },
                Doc::Align(w, d) => {
                    assert(doc_view(*c.doc) == DocView::Align(*w as nat, Box::new(doc_view(**d))));
                    let indent = Indent { stops: c.indent.stops, columns: c.indent.columns + *w };
                    advance_nested(st, c, indent, &**d, settings);
                },
                Doc::Trim => {
                    assert(doc_view(*c.doc) == DocView::Trim);
                    advance_trim(st, c, settings);
                },
                Doc::Group { id, contents, should_break, expanded_states } => {
                    assert(doc_view(*c.doc) is Group);
                    assert(*doc_view(*c.doc)->Group_contents == doc_view(**contents));
                    assert(doc_view(*c.doc)->expanded_states == states_view(*expanded_states));
                    advance_group(st, c, id, &**contents, *should_break, expanded_states, settings);
                },
                Doc::IfBreak { when_break, when_flat, target_group } => {
                    assert(doc_view(*c.doc) is IfBreak);
                    assert(*doc_view(*c.doc)->when_break == doc_view(**when_break));
                    assert(*doc_view(*c.doc)->when_flat == doc_view(**when_flat));
                    advance_if_break(st, c, &**when_break, &**when_flat, target_group, settings);
                },
                Doc::Line(kind) => {
                    assert(doc_view(*c.doc) == DocView::Line(*kind));
                    advance_line(st, c, *kind, settings);
                },
                Doc::LineSuffix(d) => {
                    assert(doc_view(*c.doc) == DocView::LineSuffix(Box::new(doc_view(**d))));
                    advance_suffix(st, c, &**d, settings);
                },
                Doc::BreakParent => {
                    assert(doc_view(*c.doc) == DocView::BreakParent);
                    proof {
                        lemma_unpopped(*st, c);
                    }
                },
                Doc::Fill(items) => {
                    assert(doc_view(*c.doc) == DocView::Fill(docs_view(items@)));
                    advance_fill(st, c, items, settings);
                },
            }
        },
    }
}

/// The step of the printer on a text.
fn advance_text<'d, 'a>(st: &mut PrintState<'d, 'a>, c: Cmd<'d, 'a>, t: &str, settings: &Settings)
    requires
        old(st).wf(),
        c@.doc == DocView::Text(t@),
        old(st).column + t@.len() <= usize::MAX,
    ensures
        final(st).wf(),
        final(st)@ == step(unpopped(*old(st), c), settings@),
{
    proof {
        lemma_unpopped(*st, c);
    }
    let len = t.unicode_len();
    emit_text(&mut st.out, t, settings.newline);
    st.column = st.column + len;
}

/// The step of the printer on a concatenation.
fn advance_concat<'d, 'a>(
    st: &mut PrintState<'d, 'a>,
    c: Cmd<'d, 'a>,
    docs: &'d Vec<Doc<'a>>,
    settings: &Settings,
)
    requires
        old(st).wf(),
        c@.doc == DocView::Concat(docs_view(docs@)),
    ensures
        final(st).wf(),
        final(st)@ == step(unpopped(*old(st), c), settings@),
{
    proof {
        lemma_unpopped(*st, c);
        assert(docs_view(docs@).skip(0) =~= docs_view(docs@));
    }
    push_children(&mut st.cmds, docs, 0, c.indent, c.mode);
}

/// The step of the printer on an `Indent` or an `Align` around `d`, whose
/// indentation is `indent`.
fn advance_nested<'d, 'a>(
    st: &mut PrintState<'d, 'a>,
    c: Cmd<'d, 'a>,
    indent: Indent,
    d: &'d Doc<'a>,
    settings: &Settings,
)
    requires
        old(st).wf(),
        c@.doc == DocView::Indent(Box::new(doc_view(*d))) && indent@ == c@.indent.deeper() || exists|
            n: nat,
        |
            c@.doc == DocView::Align(n, Box::new(doc_view(*d))) && indent@ == c@.indent.aligned(n),
    ensures
        final(st).wf(),
        final(st)@ == step(unpopped(*old(st), c), settings@),
{
    proof {
        lemma_unpopped(*st, c);
    }
    let n = whole(indent, c.mode, d);
    proof {
        lemma_pushed(st.cmds@, n);
    }
    st.cmds.push(n);
}

/// The step of the printer on a `Trim`.
fn advance_trim<'d, 'a>(st: &mut PrintState<'d, 'a>, c: Cmd<'d, 'a>, settings: &Settings)
    requires
        old(st).wf(),
        c@.doc == DocView::Trim,
    ensures
        final(st).wf(),
        final(st)@ == step(unpopped(*old(st), c), settings@),
{
    proof {
        lemma_unpopped(*st, c);
    }
    let k = trim(&mut st.out, st.column);
    st.column = st.column - k;
}

/// The step of the printer on a group.
fn advance_group<'d, 'a>(
    st: &mut PrintState<'d, 'a>,
    c: Cmd<'d, 'a>,
    id: &Option<u32>,
    contents: &'d Doc<'a>,
    should_break: bool,
    expanded_states: &'d Option<Vec<Doc<'a>>>,
    settings: &Settings,
)
    requires
        old(st).wf(),
        c@.doc == (DocView::Group {
            id: *id,
            contents: Box::new(doc_view(*contents)),
            should_break,
            expanded_states: states_view(*expanded_states),
        }),
    ensures
        final(st).wf(),
        final(st)@ == step(unpopped(*old(st), c), settings@),
{
    broadcast use vstd::std_specs::hash::group_hash_axioms;

    proof {
        lemma_unpopped(*st, c);
    }
    let (mode, doc) = choose_group(
        c,
        contents,
        should_break,
        expanded_states,
        &st.cmds,
        st.column,
        settings.print_width,
        &st.modes,
    );
    let n = whole(c.indent, mode, doc);
    proof {
        lemma_pushed(st.cmds@, n);
    }
    st.cmds.push(n);
    match id {
        Some(handle) => {
            st.modes.insert(*handle, mode);
        },
        None => {},
    }
}

/// The step of the printer on an `IfBreak`.
fn advance_if_break<'d, 'a>(
    st: &mut PrintState<'d, 'a>,
    c: Cmd<'d, 'a>,
    when_break: &'d Doc<'a>,
    when_flat: &'d Doc<'a>,
    target_group: &Option<u32>,
    settings: &Settings,
)
    requires
        old(st).wf(),
        c@.doc == (DocView::IfBreak {
            when_break: Box::new(doc_view(*when_break)),
            when_flat: Box::new(doc_view(*when_flat)),
            target_group: *target_group,
        }),
    ensures
        final(st).wf(),
        final(st)@ == step(unpopped(*old(st), c), settings@),
{
    proof {
        lemma_unpopped(*st, c);
    }
    let n = match lookup_mode(target_group, c.mode, &st.modes) {
        Mode::Break => whole(c.indent, c.mode, when_break),
        Mode::Flat => whole(c.indent, c.mode, when_flat),
    };
    proof {
        lemma_pushed(st.cmds@, n);
    }
    st.cmds.push(n);
}

/// The step of the printer on a line suffix.
fn advance_suffix<'d, 'a>(
    st: &mut PrintState<'d, 'a>,
    c: Cmd<'d, 'a>,
    d: &'d Doc<'a>,
    settings: &Settings,
)
    requires
        old(st).wf(),
        c@.doc == DocView::LineSuffix(Box::new(doc_view(*d))),
    ensures
        final(st).wf(),
        final(st)@ == step(unpopped(*old(st), c), settings@),
{
    proof {
        lemma_unpopped(*st, c);
    }
    let n = whole(c.indent, c.mode, d);
    proof {
        lemma_pushed(st.suffixes@, n);
    }
    st.suffixes.push(n);
}

/// The step of the printer on a fill.
fn advance_fill<'d, 'a>(
    st: &mut PrintState<'d, 'a>,
    c: Cmd<'d, 'a>,
    items: &'d Vec<Doc<'a>>,
    settings: &Settings,
)
    requires
        old(st).wf(),
        c.wf(),
        doc_view(*c.doc) == DocView::Fill(docs_view(items@)),
    ensures
        final(st).wf(),
        final(st)@ == step(unpopped(*old(st), c), settings@),
{
    proof {
        lemma_unpopped(*st, c);
    }
    push_fill(&mut st.cmds, c, items, st.column, settings.print_width, &st.modes);
}

/// The step of the printer on a line: `c` holds the line and was popped.
fn advance_line<'d, 'a>(
    st: &mut PrintState<'d, 'a>,
    c: Cmd<'d, 'a>,
    kind: LineKind,
    settings: &Settings,
)
    requires
        old(st).wf(),
        c.wf(),
        doc_view(*c.doc) == DocView::Line(kind),
        c.indent.stops * settings.tab_width + c.indent.columns + 1 <= usize::MAX,
        old(st).column + 1 <= usize::MAX,
    ensures
        final(st).wf(),
        final(st)@ == step(unpopped(*old(st), c), settings@),
{
    let ghost m = unpopped(*st, c);
    proof {
        lemma_unpopped(*st, c);
    }
    let forced = kind.is_forced();
    let flat_mode = match c.mode {
        Mode::Flat => true,
        Mode::Break => false,
    };
    if flat_mode && !forced {
        match kind {
            LineKind::Soft => {
                st.out.push(' ');
                st.column = st.column + 1;
            },
            _ => {},
        }
    } else if st.suffixes.len() > 0 {
        proof {
            lemma_pushed(st.cmds@, c);
        }
        st.cmds.push(c);
        flush(&mut st.cmds, &mut st.suffixes);
        proof {
            assert(cmds_view(st.suffixes@) =~= Seq::<Command>::empty());
        }
    } else {
        proof {
            assert(cmds_view(st.suffixes@) =~= m.suffixes);
        }
        settings.newline.write_to(&mut st.out);
        match kind {
            LineKind::Literal => {
                st.column = 1;
            },
            _ => {
                assert(c.indent.stops * settings.tab_width <= usize::MAX) by (nonlinear_arith)
                    requires
                        c.indent.stops * settings.tab_width + c.indent.columns + 1 <= usize::MAX,
                        c.indent.columns >= 0,
                ;
                emit_indent(&mut st.out, c.indent, settings);
                st.column = 1 + c.indent.stops * settings.tab_width + c.indent.columns;
                proof {
                    assert(st.out@ =~= m.out + settings@.newline + indent_text(
                        c@.indent,
                        settings@,
                    ));
                }
            },
        }
    }
}

/// Prints `doc` and returns the text. The document has no defect, and its
/// marks are settled: the printer reads them and looks back at no choice.
pub fn print<'a>(doc: &Doc<'a>, settings: &Settings) -> (text: String)
    requires
        weight(doc@, settings@.tab_width) <= MAX_WEIGHT,
        settings.tab_width >= 1,
        well_formed(doc@),
        propagated(doc@) == doc@,
    ensures
        text@ == rendered(doc@, settings@),
{
    let ghost layout = settings@;
    let ghost tab = layout.tab_width;
    let root = whole(Indent { stops: 0, columns: 0 }, Mode::Break, doc);
    let mut st = PrintState {
        out: Vec::new(),
        column: 1,
        cmds: vec![root],
        suffixes: Vec::new(),
        modes: HashMap::new(),
    };
    proof {
        lemma_start_within(doc@, tab, MAX_WEIGHT as nat);
        assert(st@.cmds =~= start(doc@).cmds);
        assert(st@.suffixes =~= start(doc@).suffixes);
        assert(st@.out =~= start(doc@).out);
        assert(st@.modes =~= start(doc@).modes);
        assert(st@ == start(doc@));
    }
    while st.cmds.len() > 0 || st.suffixes.len() > 0
        invariant
            st.wf(),
            settings.tab_width >= 1,
            layout == settings@,
            tab == layout.tab_width,
            within(st@, tab, MAX_WEIGHT as nat),
            run(st@, layout) == run(start(doc@), layout),
        decreases measure(st@, tab),
    {
        proof {
            lemma_step_decreases(st@, layout);
            lemma_step_within(st@, layout, MAX_WEIGHT as nat);
        }
        advance(&mut st, settings);
    }
    collect(&st.out)
}

/// A printer for one document.
pub struct Printer<'a> {
    doc: Doc<'a>,
    source_text: &'a str,
    options: PrettierOptions,
}

impl<'a> Printer<'a> {
    /// The document to print.
    pub closed spec fn doc(&self) -> DocView {
        self.doc@
    }

    /// The layout: the options, with the line break settled by the source
    /// text.
    pub closed spec fn layout(&self) -> Layout {
        self.options.layout(self.source_text.spec_bytes())
    }

    /// A printer for `doc` under `options`; `source_text` settles the line
    /// break of `EndOfLine::Auto`.
    pub fn new(doc: Doc<'a>, source_text: &'a str, options: PrettierOptions) -> (p: Self)
        ensures
            p.doc() == doc@,
            p.layout() == options.layout(source_text.spec_bytes()),
    {
        Printer { doc, source_text, options }
    }

    /// The text of the document. The printer first marks every group that
    /// holds a forced break, then prints.
    pub fn build(self) -> (text: String)
        requires
            self.layout().tab_width >= 1,
            weight(self.doc(), self.layout().tab_width) <= MAX_WEIGHT,
            well_formed(self.doc()),
        ensures
            text@ == rendered(propagated(self.doc()), self.layout()),
    {
        let mut doc = self.doc;
        proof {
            lemma_marked_is_printable(doc@, self.options.tab_width as nat);
        }
        propagate_breaks(&mut doc);
        let settings = Settings {
            print_width: self.options.print_width,
            tab_width: self.options.tab_width,
            use_tabs: self.options.use_tabs,
            newline: self.options.end_of_line.settle(self.source_text),
        };
        print(&doc, &settings)
    }
}

/// A document that the check takes can be printed once it is marked: the
/// pass changes neither its weight nor its defects, and a second pass would
/// change nothing.
pub proof fn lemma_marked_is_printable(doc: DocView, tab: nat)
    requires
        well_formed(doc),
    ensures
        weight(propagated(doc), tab) == weight(doc, tab),
        well_formed(propagated(doc)),
        propagated(propagated(doc)) == propagated(doc),
{
    lemma_propagated_weight(doc, tab);
    law_propagation_keeps_defects(doc, Scan { seen: Set::empty(), next: 0, defect: None });
    law_propagation_settles(doc);
}

} // verus!
