use oxc_prettier::comments::{Comment, CommentKind};
use oxc_prettier::doc::{Doc, LineKind};
use oxc_prettier::options::PrettierOptions;
use oxc_prettier::propagate::propagate_breaks;
use oxc_prettier::reconcile::Element;
use oxc_prettier::{format_doc, Prettier};

fn width(print_width: usize) -> PrettierOptions {
    PrettierOptions { print_width, ..PrettierOptions::default() }
}

fn a_line_b<'a>() -> Doc<'a> {
    Doc::group(Doc::concat(vec![Doc::text("a"), Doc::line(), Doc::text("b")]))
}

#[test]
fn group_that_fits_is_flat() {
    assert_eq!(format_doc(a_line_b(), "", width(80)), Ok("a b".to_string()));
}

#[test]
fn group_that_does_not_fit_breaks_without_trailing_space() {
    assert_eq!(format_doc(a_line_b(), "", width(1)), Ok("a\nb".to_string()));
}

#[test]
fn fill_breaks_each_separator_on_its_own() {
    let doc = Doc::fill(vec![
        Doc::text("aaaa"),
        Doc::line(),
        Doc::text("b"),
        Doc::line(),
        Doc::text("cccccccccccc"),
    ]);
    assert_eq!(format_doc(doc, "", width(6)), Ok("aaaa\nb\ncccccccccccc".to_string()));
}

fn nested_hard_line<'a>() -> Doc<'a> {
    Doc::group(Doc::concat(vec![
        Doc::text("x"),
        Doc::line(),
        Doc::group(Doc::concat(vec![Doc::text("a"), Doc::hardline(), Doc::text("b")])),
    ]))
}

#[test]
fn hard_line_two_groups_deep_breaks_both() {
    assert_eq!(format_doc(nested_hard_line(), "", width(80)), Ok("x\na\nb".to_string()));
}

#[test]
fn propagation_marks_both_groups() {
    let mut doc = nested_hard_line();
    assert!(propagate_breaks(&mut doc));
    let inner = Doc::Group {
        id: None,
        contents: Box::new(Doc::Concat(vec![
            Doc::Text("a"),
            Doc::Line(LineKind::Hard),
            Doc::Text("b"),
        ])),
        should_break: true,
        expanded_states: None,
    };
    let outer = Doc::Group {
        id: None,
        contents: Box::new(Doc::Concat(vec![Doc::Text("x"), Doc::Line(LineKind::Soft), inner])),
        should_break: true,
        expanded_states: None,
    };
    assert_eq!(doc, outer);
}

fn two_statements<'a>(second_at: u32) -> Vec<Element<'a>> {
    vec![
        Element { start: 0, end: 1, doc: Doc::text("a") },
        Element { start: second_at, end: second_at + 1, doc: Doc::text("b") },
    ]
}

fn block_comment() -> Vec<Comment> {
    vec![Comment { start: 2, end: 9, kind: CommentKind::BlockComment }]
}

#[test]
fn one_blank_line_is_kept() {
    let p = Prettier::new("a /* c */\n\nb", block_comment(), PrettierOptions::default());
    assert_eq!(p.format(two_statements(11)), Ok("a /* c */\n\nb".to_string()));
}

#[test]
fn two_blank_lines_collapse_to_one() {
    let p = Prettier::new("a /* c */\n\n\nb", block_comment(), PrettierOptions::default());
    assert_eq!(p.format(two_statements(12)), Ok("a /* c */\n\nb".to_string()));
}

#[test]
fn no_blank_line_gives_none() {
    let p = Prettier::new("a /* c */\nb", block_comment(), PrettierOptions::default());
    assert_eq!(p.format(two_statements(10)), Ok("a /* c */\nb".to_string()));
}

#[test]
fn same_input_gives_same_output() {
    let once = Prettier::new("a /* c */\n\nb", block_comment(), PrettierOptions::default())
        .format(two_statements(11));
    let twice = Prettier::new("a /* c */\n\nb", block_comment(), PrettierOptions::default())
        .format(two_statements(11));
    assert_eq!(once, twice);
}

#[test]
fn formatting_the_output_again_changes_nothing() {
    let source = "a; /* c */\n\n\n\n// d\nb;   c;";
    let trivia = vec![
        Comment { start: 3, end: 10, kind: CommentKind::BlockComment },
        Comment { start: 14, end: 18, kind: CommentKind::LineComment },
    ];
    let program = vec![
        Element { start: 0, end: 2, doc: Doc::text("a;") },
        Element { start: 19, end: 21, doc: Doc::text("b;") },
        Element { start: 24, end: 26, doc: Doc::text("c;") },
    ];
    let once = Prettier::new(source, trivia, PrettierOptions::default()).format(program).unwrap();
    assert_eq!(once, "a; /* c */\n\n// d\nb;\nc;");
    let trivia = vec![
        Comment { start: 3, end: 10, kind: CommentKind::BlockComment },
        Comment { start: 12, end: 16, kind: CommentKind::LineComment },
    ];
    let program = vec![
        Element { start: 0, end: 2, doc: Doc::text("a;") },
        Element { start: 17, end: 19, doc: Doc::text("b;") },
        Element { start: 20, end: 22, doc: Doc::text("c;") },
    ];
    let twice = Prettier::new(&once, trivia, PrettierOptions::default()).format(program).unwrap();
    assert_eq!(twice, once);
}
