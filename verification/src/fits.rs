//! The width check: does a run of commands, measured flat up to the next
//! certain newline, stay within the columns that are left on the line?

use crate::doc::{doc_view, docs_view, Doc, DocView, LineKind};
use crate::layout::{
    blank_run, blank_run_of, children, cmds_view, cmds_wf, deciding_mode, lemma_children_weight,
    lemma_stack_weight_add, lemma_stack_weight_push, lemma_stack_weight_take, lookup_mode,
    push_children, stack_weight, whole, Cmd, Command, Mode,
};
use std::collections::HashMap;
use vstd::prelude::*;
use vstd::string::StrSliceExecFns;

verus! {

/// The state of a width check.
pub struct FitState {
    /// The commands being measured, top last.
    pub cmds: Seq<Command>,
    /// How many of the commands that follow on the line are not yet taken.
    pub rest_len: nat,
    /// The columns that are left; negative once the line is too long.
    pub width: int,
    /// The blanks that end what was measured so far.
    pub trailing: nat,
}

/// What one step of a width check gives: a verdict or the next state.
pub enum FitStep {
    Done(bool),
    Next(FitState),
}

/// One step of the width check. `rest` holds the commands that follow on the
/// line, each in the mode it has on the printer's stack; they are taken from
/// its top once `cmds` is used up. With `must_be_flat`, a group that is
/// marked broken does not fit.
pub open spec fn fit_step(
    s: FitState,
    rest: Seq<Command>,
    must_be_flat: bool,
    modes: Map<u32, Mode>,
) -> FitStep {
    if s.width < 0 {
        FitStep::Done(false)
    } else if s.cmds.len() == 0 {
        if s.rest_len == 0 || s.rest_len > rest.len() {
            FitStep::Done(true)
        } else {
            FitStep::Next(
                FitState { cmds: seq![rest[s.rest_len - 1]], rest_len: (s.rest_len - 1) as nat, ..s },
            )
        }
    } else {
        let c = s.cmds.last();
        let below = s.cmds.drop_last();
        match c.doc {
            DocView::Text(t) => FitStep::Next(
                FitState {
                    cmds: below,
                    width: s.width - t.len(),
                    trailing: blank_run(t, s.trailing),
                    ..s
                },
            ),
            DocView::Concat(docs) => FitStep::Next(
                FitState { cmds: below + children(docs, c.indent, c.mode), ..s },
            ),
            DocView::Fill(docs) => FitStep::Next(
                FitState { cmds: below + children(docs, c.indent, c.mode), ..s },
            ),
            DocView::Indent(d) => FitStep::Next(
                FitState { cmds: below.push(Command { doc: *d, ..c }), ..s },
            ),
            DocView::Align(_, d) => FitStep::Next(
                FitState { cmds: below.push(Command { doc: *d, ..c }), ..s },
            ),
            DocView::Trim => FitStep::Next(
                FitState { cmds: below, width: s.width + s.trailing, trailing: 0, ..s },
            ),
            DocView::Group { contents, should_break, .. } => if must_be_flat && should_break {
                FitStep::Done(false)
            } else {
                FitStep::Next(
                    FitState {
                        cmds: below.push(
                            Command {
                                mode: if should_break {
                                    Mode::Break
                                } else {
                                    c.mode
                                },
                                doc: *contents,
                                ..c
                            },
                        ),
                        ..s
                    },
                )
            },
            DocView::IfBreak { when_break, when_flat, target_group } => FitStep::Next(
                FitState {
                    cmds: below.push(
                        Command {
                            doc: if deciding_mode(target_group, c.mode, modes) == Mode::Break {
                                *when_break
                            } else {
                                *when_flat
                            },
                            ..c
                        },
                    ),
                    ..s
                },
            ),
            DocView::Line(kind) => if c.mode == Mode::Break || kind.forced() {
                FitStep::Done(true)
            } else if kind == LineKind::Soft {
                FitStep::Next(
                    FitState { cmds: below, width: s.width - 1, trailing: s.trailing + 1, ..s },
                )
            } else {
                FitStep::Next(FitState { cmds: below, ..s })
            },
            DocView::LineSuffix(_) => FitStep::Next(FitState { cmds: below, ..s }),
            DocView::BreakParent => FitStep::Next(FitState { cmds: below, ..s }),
        }
    }
}

/// What bounds the steps that a width check has left.
pub open spec fn fit_measure(s: FitState, rest: Seq<Command>) -> nat {
    stack_weight(s.cmds, 0) + (if s.rest_len <= rest.len() {
        stack_weight(rest.take(s.rest_len as int), 0) + s.rest_len
    } else {
        0
    })
}

/// Every step of the width check lowers its measure.
pub proof fn lemma_fit_step_decreases(
    s: FitState,
    rest: Seq<Command>,
    must_be_flat: bool,
    modes: Map<u32, Mode>,
)
    ensures
        fit_step(s, rest, must_be_flat, modes) matches FitStep::Next(n) ==> fit_measure(n, rest)
            < fit_measure(s, rest),
{
    if s.width >= 0 {
        if s.cmds.len() == 0 {
            if 0 < s.rest_len <= rest.len() {
                lemma_stack_weight_take(rest, s.rest_len as int, 0);
                lemma_stack_weight_push(Seq::empty(), rest[s.rest_len - 1], 0);
                assert(Seq::<Command>::empty().push(rest[s.rest_len - 1]) =~= seq![
                    rest[s.rest_len - 1],
                ]);
            }
        } else {
            let c = s.cmds.last();
            let below = s.cmds.drop_last();
            match c.doc {
                DocView::Concat(docs) => {
                    lemma_stack_weight_add(below, children(docs, c.indent, c.mode), 0);
                    lemma_children_weight(docs, c.indent, c.mode, 0);
                },
                DocView::Fill(docs) => {
                    lemma_stack_weight_add(below, children(docs, c.indent, c.mode), 0);
                    lemma_children_weight(docs, c.indent, c.mode, 0);
                },
                DocView::Indent(d) => {
                    lemma_stack_weight_push(below, Command { doc: *d, ..c }, 0);
                },
                DocView::Align(_, d) => {
                    lemma_stack_weight_push(below, Command { doc: *d, ..c }, 0);
                },
                DocView::Group { contents, should_break, .. } => {
                    lemma_stack_weight_push(
                        below,
                        Command {
                            mode: if should_break {
                                Mode::Break
                            } else {
                                c.mode
                            },
                            doc: *contents,
                            ..c
                        },
                        0,
                    );
                },
                DocView::IfBreak { when_break, when_flat, target_group } => {
                    lemma_stack_weight_push(below, Command { doc: *when_break, ..c }, 0);
                    lemma_stack_weight_push(below, Command { doc: *when_flat, ..c }, 0);
                },
                _ => {},
            }
        }
    }
}

/// The verdict of the width check that starts in state `s`.
pub open spec fn fits_from(
    s: FitState,
    rest: Seq<Command>,
    must_be_flat: bool,
    modes: Map<u32, Mode>,
) -> bool
    decreases fit_measure(s, rest),
{
    match fit_step(s, rest, must_be_flat, modes) {
        FitStep::Done(b) => b,
        FitStep::Next(n) => {
            proof {
                lemma_fit_step_decreases(s, rest, must_be_flat, modes);
            }
            fits_from(n, rest, must_be_flat, modes)
        },
    }
}

/// Whether the commands `next`, followed by what `rest` holds up to the next
/// certain newline, take at most `width` columns.
pub open spec fn fits(
    next: Seq<Command>,
    rest: Seq<Command>,
    width: int,
    must_be_flat: bool,
    modes: Map<u32, Mode>,
) -> bool {
    fits_from(
        FitState { cmds: next, rest_len: rest.len(), width, trailing: 0 },
        rest,
        must_be_flat,
        modes,
    )
}

/// Executable form of [`fits`]: measures `next`, then the topmost `rest_len`
/// commands of `rest`, against `width` columns.
pub fn fits_in<'d, 'a>(
    next: Vec<Cmd<'d, 'a>>,
    rest: &Vec<Cmd<'d, 'a>>,
    rest_len: usize,
    width: usize,
    must_be_flat: bool,
    modes: &HashMap<u32, Mode>,
) -> (b: bool)
    requires
        cmds_wf(next@),
        cmds_wf(rest@),
        rest_len <= rest.len(),
    ensures
        b == fits(
            cmds_view(next@),
            cmds_view(rest@).take(rest_len as int),
            width as int,
            must_be_flat,
            modes@,
        ),
{
    let ghost r = cmds_view(rest@).take(rest_len as int);
    let ghost goal = fits(cmds_view(next@), r, width as int, must_be_flat, modes@);
    let mut cmds = next;
    let mut idx = rest_len;
    let mut left = width;
    let mut trailing: usize = 0;
    loop
        invariant
            cmds_wf(cmds@),
            cmds_wf(rest@),
            idx <= rest_len <= rest.len(),
            r == cmds_view(rest@).take(rest_len as int),
            left + trailing <= width,
            goal == fits(cmds_view(next@), r, width as int, must_be_flat, modes@),
            goal == fits_from(
                fit_state(cmds_view(cmds@), idx as nat, left as int, trailing as nat),
                r,
                must_be_flat,
                modes@,
            ),
        decreases fit_measure(fit_state(cmds_view(cmds@), idx as nat, left as int, trailing as nat), r),
    {
        let ghost s0 = fit_state(cmds_view(cmds@), idx as nat, left as int, trailing as nat);
        proof {
            lemma_fit_step_decreases(s0, r, must_be_flat, modes@);
        }
        match cmds.pop() {
            None => {
                if idx == 0 {
                    return true;
                }
                idx = idx - 1;
                let c = rest[idx];
                cmds.push(c);
                proof {
                    assert(cmds_view(cmds@) =~= seq![r[idx as int]]);
                    assert(cmds_wf(cmds@)) by {
                        assert forall|k: int| 0 <= k < cmds@.len() implies (#[trigger] cmds@[k]).wf() by {
                            assert(cmds@[k] == rest@[idx as int]);
                        }
                    }
                }
            },
            Some(c) => {
                proof {
                    assert(cmds_view(cmds@) =~= s0.cmds.drop_last());
                    assert(c@ == s0.cmds.last());
                    assert(s0.cmds =~= cmds_view(cmds@).push(c@));
                    assert(c.wf());
                    assert(cmds_wf(cmds@));
                }
                let verdict = fit_advance(
                    &mut cmds,
                    c,
                    &mut left,
                    &mut trailing,
                    must_be_flat,
                    modes,
                    Ghost(r),
                    Ghost(idx as nat),
                );
                match verdict {
                    Some(b) => {
                        return b;
                    },
                    None => {},
                }
            },
        }
    }
}

/// The state of a width check, from its parts.
pub open spec fn fit_state(cmds: Seq<Command>, rest_len: nat, width: int, trailing: nat) -> FitState {
    FitState { cmds, rest_len, width, trailing }
}

/// Takes one step of the width check on the command `c`, which was popped
/// from `cmds`. Returns the verdict where the step gives one.
fn fit_advance<'d, 'a>(
    cmds: &mut Vec<Cmd<'d, 'a>>,
    c: Cmd<'d, 'a>,
    left: &mut usize,
    trailing: &mut usize,
    must_be_flat: bool,
    modes: &HashMap<u32, Mode>,
    Ghost(rest): Ghost<Seq<Command>>,
    Ghost(rest_len): Ghost<nat>,
) -> (verdict: Option<bool>)
    requires
        cmds_wf(old(cmds)@),
        c.wf(),
        *old(left) + *old(trailing) <= usize::MAX,
    ensures
        cmds_wf(final(cmds)@),
        *final(left) + *final(trailing) <= *old(left) + *old(trailing),
        match verdict {
            Some(b) => b == fits_from(
                fit_state(
                    cmds_view(old(cmds)@).push(c@),
                    rest_len,
                    *old(left) as int,
                    *old(trailing) as nat,
                ),
                rest,
                must_be_flat,
                modes@,
            ),
            None => fit_step(
                fit_state(
                    cmds_view(old(cmds)@).push(c@),
                    rest_len,
                    *old(left) as int,
                    *old(trailing) as nat,
                ),
                rest,
                must_be_flat,
                modes@,
            ) == FitStep::Next(
                fit_state(
                    cmds_view(final(cmds)@),
                    rest_len,
                    *final(left) as int,
                    *final(trailing) as nat,
                ),
            ),
        },
{
    let ghost below = cmds_view(cmds@);
    let ghost s0 = fit_state(below.push(c@), rest_len, *left as int, *trailing as nat);
    proof {
        assert(s0.cmds.drop_last() =~= below);
        assert(s0.cmds.last() == c@);
    }
    match c.doc {
        Doc::Text(t) => {
            assert(doc_view(*c.doc) == DocView::Text(t@));
            let len = t.unicode_len();
            if len > *left {
                proof {
                    let s1 = fit_state(
                        below,
                        rest_len,
                        *left - len,
                        blank_run(t@, *trailing as nat),
                    );
                    assert(fit_step(s0, rest, must_be_flat, modes@) == FitStep::Next(s1));
                    assert(fit_step(s1, rest, must_be_flat, modes@) == FitStep::Done(false));
                    assert(!fits_from(s1, rest, must_be_flat, modes@));
                }
                return Some(false);
            }
            *trailing = blank_run_of(t, *trailing);
            *left = *left - len;
            None
        },
        Doc::Concat(docs) => {
            assert(doc_view(*c.doc) == DocView::Concat(docs_view(docs@)));
            assert(docs_view(docs@).skip(0) =~= docs_view(docs@));
            push_children(cmds, docs, 0, c.indent, c.mode);
            None
        },
        Doc::Fill(docs) => {
            assert(doc_view(*c.doc) == DocView::Fill(docs_view(docs@)));
            push_children(cmds, docs, c.skip, c.indent, c.mode);
            None
        },
        Doc::Indent(d) => {
            assert(doc_view(*c.doc) == DocView::Indent(Box::new(doc_view(**d))));
            let n = whole(c.indent, c.mode, &**d);
            proof {
                lemma_pushed(cmds@, n);
            }
            cmds.push(n);
            None
        },
        Doc::Align(w, d) => {
            assert(doc_view(*c.doc) == DocView::Align(*w as nat, Box::new(doc_view(**d))));
            let n = whole(c.indent, c.mode, &**d);
            proof {
                lemma_pushed(cmds@, n);
            }
            cmds.push(n);
            None
        },
        Doc::Trim => {
            assert(doc_view(*c.doc) == DocView::Trim);
            *left = *left + *trailing;
            *trailing = 0;
            None
        },
        Doc::Group { id, contents, should_break, expanded_states } => {
            assert(doc_view(*c.doc) is Group);
            assert(*doc_view(*c.doc)->Group_contents == doc_view(**contents));
            if must_be_flat && *should_break {
                return Some(false);
            }
            let mode = if *should_break {
                Mode::Break
            } else {
                c.mode
            };
            let n = whole(c.indent, mode, &**contents);
            proof {
                lemma_pushed(cmds@, n);
            }
            cmds.push(n);
            None
        },
        Doc::IfBreak { when_break, when_flat, target_group } => {
            assert(doc_view(*c.doc) is IfBreak);
            assert(*doc_view(*c.doc)->when_break == doc_view(**when_break));
            assert(*doc_view(*c.doc)->when_flat == doc_view(**when_flat));
            let n = match lookup_mode(target_group, c.mode, modes) {
                Mode::Break => whole(c.indent, c.mode, &**when_break),
                Mode::Flat => whole(c.indent, c.mode, &**when_flat),
            };
            proof {
                lemma_pushed(cmds@, n);
            }
            cmds.push(n);
            None
        },
        Doc::Line(kind) => {
            assert(doc_view(*c.doc) == DocView::Line(*kind));
            match c.mode {
                Mode::Break => Some(true),
                Mode::Flat => {
                    match kind {
                        LineKind::Hard | LineKind::Literal => Some(true),
                        LineKind::Soft => {
                            if *left == 0 {
                                proof {
                                    let s1 = fit_state(
                                        below,
                                        rest_len,
                                        -1,
                                        (*trailing + 1) as nat,
                                    );
                                    assert(fit_step(s0, rest, must_be_flat, modes@)
                                        == FitStep::Next(s1));
                                    assert(fit_step(s1, rest, must_be_flat, modes@)
                                        == FitStep::Done(false));
                                    assert(!fits_from(s1, rest, must_be_flat, modes@));
                                }
                                return Some(false);
                            }
                            *left = *left - 1;
                            *trailing = *trailing + 1;
                            None
                        },
                        LineKind::Bare => None,
                    }
                },
            }
        },
        Doc::LineSuffix(d) => {
            assert(doc_view(*c.doc) is LineSuffix);
            None
        },
        Doc::BreakParent => {
            assert(doc_view(*c.doc) == DocView::BreakParent);
            None
        },
    }
}

/// The view of a stack after a push.
pub proof fn lemma_pushed<'d, 'a>(cmds: Seq<Cmd<'d, 'a>>, c: Cmd<'d, 'a>)
    requires
        cmds_wf(cmds),
        c.wf(),
    ensures
        cmds_wf(cmds.push(c)),
        cmds_view(cmds.push(c)) == cmds_view(cmds).push(c@),
{
    assert(cmds_view(cmds.push(c)) =~= cmds_view(cmds).push(c@));
    assert forall|k: int| 0 <= k < cmds.push(c).len() implies (#[trigger] cmds.push(c)[k]).wf() by {
        if k < cmds.len() {
            assert(cmds.push(c)[k] == cmds[k]);
        }
    }
}

} // verus!
