use oxc_prettier::comments::{check_trivia, Comment, CommentKind};
use oxc_prettier::doc::{Doc, LineKind};
use oxc_prettier::options::{PrettierOptions, TrailingComma};
use oxc_prettier::reconcile::Element;
use oxc_prettier::source::text_at;
use oxc_prettier::validate::Defect;
use oxc_prettier::{FormatError, Prettier};

fn line(start: u32, end: u32) -> Comment {
    Comment { start, end, kind: CommentKind::LineComment }
}

fn block(start: u32, end: u32) -> Comment {
    Comment { start, end, kind: CommentKind::BlockComment }
}

fn leaf<'a>(source: &'a str, start: u32, end: u32) -> Element<'a> {
    Element { start, end, doc: Doc::text(&source[start as usize..end as usize]) }
}

fn format(source: &str, trivia: Vec<Comment>, spans: &[(u32, u32)]) -> Result<String, FormatError> {
    let program = spans.iter().map(|&(s, e)| leaf(source, s, e)).collect();
    Prettier::new(source, trivia, PrettierOptions::default()).format(program)
}

#[test]
fn leading_line_comment_stays_on_its_line() {
    assert_eq!(format("// c\na", vec![line(0, 4)], &[(5, 6)]), Ok("// c\na".to_string()));
}

#[test]
fn leading_block_comment_stays_before_the_node() {
    assert_eq!(format("/* c */ a", vec![block(0, 7)], &[(8, 9)]), Ok("/* c */ a".to_string()));
    assert_eq!(format("/* c */\na", vec![block(0, 7)], &[(8, 9)]), Ok("/* c */\na".to_string()));
}

#[test]
fn blank_line_after_leading_comment_is_kept_once() {
    assert_eq!(format("// c\n\n\na", vec![line(0, 4)], &[(7, 8)]), Ok("// c\n\na".to_string()));
}

#[test]
fn trailing_line_comment_stays_on_the_line() {
    assert_eq!(
        format("a // c\nb", vec![line(2, 6)], &[(0, 1), (7, 8)]),
        Ok("a // c\nb".to_string())
    );
}

#[test]
fn comment_on_its_own_line_leads_the_next_node() {
    assert_eq!(
        format("a\n// c\nb", vec![line(2, 6)], &[(0, 1), (7, 8)]),
        Ok("a\n// c\nb".to_string())
    );
}

#[test]
fn several_trailing_block_comments() {
    assert_eq!(
        format("a /* x */ /* y */ // z\nb", vec![block(2, 9), block(10, 17), line(18, 22)], &[
            (0, 1),
            (23, 24)
        ]),
        Ok("a /* x */ /* y */ // z\nb".to_string())
    );
}

#[test]
fn comment_inside_a_node_belongs_to_the_node() {
    assert_eq!(
        format("f(/* c */);\ng", vec![block(2, 9)], &[(0, 11), (12, 13)]),
        Ok("f(/* c */);\ng".to_string())
    );
}

#[test]
fn comments_after_the_last_node_close_the_text() {
    assert_eq!(format("a\n// end", vec![line(2, 8)], &[(0, 1)]), Ok("a\n// end".to_string()));
    assert_eq!(
        format("// x\n// y", vec![line(0, 4), line(5, 9)], &[]),
        Ok("// x\n// y".to_string())
    );
}

#[test]
fn statements_are_separated_by_one_line_break() {
    assert_eq!(format("a;b;  c", vec![], &[(0, 2), (2, 4), (6, 7)]), Ok("a;\nb;\nc".to_string()));
    assert_eq!(format("", vec![], &[]), Ok(String::new()));
}

#[test]
fn blank_line_test_looks_at_one_character() {
    let p = |source| Prettier::new(source, vec![], PrettierOptions::default());
    assert!(p("a;\n\nb").is_next_line_empty(2));
    assert!(!p("a;\nb").is_next_line_empty(2));
    assert!(p("a; \nb").is_next_line_empty(2));
    assert!(!p("a;  \n\nb").is_next_line_empty(2));
    assert!(p("a;é\nb").is_next_line_empty(2));
    assert!(!p("a;").is_next_line_empty(2));
    assert!(!p("a;\n").is_next_line_empty(2));
}

#[test]
fn trivia_must_rise_and_stay_in_the_text() {
    assert!(check_trivia("/* a */ /* b */", &vec![block(0, 7), block(8, 15)]));
    assert!(!check_trivia("/* a */ /* b */", &vec![block(8, 15), block(0, 7)]));
    assert!(!check_trivia("/* a */", &vec![block(0, 8)]));
    assert!(!check_trivia("/* a */", &vec![block(5, 3)]));
    assert!(!check_trivia("é/**/", &vec![block(1, 6)]));
    assert_eq!(format("/* a */", vec![block(0, 8)], &[]), Err(FormatError::Trivia));
}

#[test]
fn element_must_stay_in_the_text() {
    let program = vec![Element { start: 0, end: 9, doc: Doc::text("a") }];
    let p = Prettier::new("a", vec![], PrettierOptions::default());
    assert_eq!(p.format(program), Err(FormatError::Program));
    let program = vec![Element { start: 1, end: 0, doc: Doc::text("a") }];
    let p = Prettier::new("a", vec![], PrettierOptions::default());
    assert_eq!(p.format(program), Err(FormatError::Program));
}

#[test]
fn defect_of_an_element_is_reported() {
    let program = vec![Element { start: 0, end: 1, doc: Doc::fill(vec![]) }];
    let p = Prettier::new("a", vec![], PrettierOptions::default());
    assert_eq!(
        p.format(program),
        Err(FormatError::Document(Defect::MalformedFill { node: 1, len: 0 }))
    );
}

#[test]
fn build_and_doc_agree_with_format() {
    let source = "a // c\n\nb";
    let trivia = || vec![line(2, 6)];
    let program = || vec![leaf(source, 0, 1), leaf(source, 8, 9)];
    let p = || Prettier::new(source, trivia(), PrettierOptions::default());
    assert!(p().is_valid());
    assert_eq!(p().build(program()), "a // c\n\nb");
    assert_eq!(
        p().doc(program()),
        Doc::Concat(vec![
            Doc::Text("a"),
            Doc::LineSuffix(Box::new(Doc::Concat(vec![Doc::Text(" "), Doc::Text("// c")]))),
            Doc::BreakParent,
            Doc::Line(LineKind::Hard),
            Doc::Line(LineKind::Hard),
            Doc::Text("b"),
        ])
    );
}

#[test]
fn cursor_places_each_comment_once() {
    let source = "/* l */ a /* t */\n{ /* d */ }";
    let trivia = vec![block(0, 7), block(10, 17), block(20, 27)];
    let mut p = Prettier::new(source, trivia, PrettierOptions::default());
    assert_eq!(p.print_leading_comments(8), vec![Doc::Text("/* l */"), Doc::Text(" ")]);
    assert_eq!(p.print_leading_comments(8), vec![]);
    assert_eq!(p.print_trailing_comments(9), vec![Doc::Text(" "), Doc::Text("/* t */")]);
    assert_eq!(p.print_trailing_comments(9), vec![]);
    assert_eq!(p.print_dangling_comments(29), vec![Doc::Text("/* d */")]);
    assert_eq!(p.print_dangling_comments(29), vec![]);
}

#[test]
fn comma_policy_table() {
    let p = |trailing_comma| {
        Prettier::new("", vec![], PrettierOptions { trailing_comma, ..PrettierOptions::default() })
    };
    assert!(p(TrailingComma::All).should_print_es5_comma());
    assert!(p(TrailingComma::All).should_print_all_comma());
    assert!(p(TrailingComma::ES5).should_print_es5_comma());
    assert!(!p(TrailingComma::ES5).should_print_all_comma());
    assert!(!p(TrailingComma::Never).should_print_es5_comma());
    assert!(!p(TrailingComma::Never).should_print_all_comma());
    assert!(p(TrailingComma::ES5).should_print_comma_impl(false));
    assert!(!p(TrailingComma::ES5).should_print_comma_impl(true));
    assert!(TrailingComma::All.is_all());
    assert!(TrailingComma::ES5.is_es5());
    assert!(TrailingComma::Never.is_none());
    assert!(!TrailingComma::Never.is_all());
}

#[test]
fn blank_line_before_a_closing_comment_is_kept_once() {
    assert_eq!(format("a\n\n// end", vec![line(3, 9)], &[(0, 1)]), Ok("a\n\n// end".to_string()));
    assert_eq!(
        format("a\n\n\n\n// end", vec![line(5, 11)], &[(0, 1)]),
        Ok("a\n\n// end".to_string())
    );
    assert_eq!(
        format("a // t\n\n// end", vec![line(2, 6), line(8, 14)], &[(0, 1)]),
        Ok("a // t\n\n// end".to_string())
    );
}

#[test]
fn blank_lines_between_closing_comments_are_kept_once() {
    assert_eq!(
        format("// x\n\n\n// y\n// z", vec![line(0, 4), line(7, 11), line(12, 16)], &[]),
        Ok("// x\n\n// y\n// z".to_string())
    );
    assert_eq!(
        format("a\n// x\n\n// y", vec![line(2, 6), line(8, 12)], &[(0, 1)]),
        Ok("a\n// x\n\n// y".to_string())
    );
}

#[test]
fn blank_lines_between_dangling_comments_are_kept_once() {
    let source = "{ /* a */\n\n\n/* b */\n/* c */ }";
    let trivia = vec![block(2, 9), block(12, 19), block(20, 27)];
    let mut p = Prettier::new(source, trivia, PrettierOptions::default());
    assert_eq!(
        p.print_dangling_comments(29),
        vec![
            Doc::Text("/* a */"),
            Doc::Line(LineKind::Hard),
            Doc::Line(LineKind::Hard),
            Doc::Text("/* b */"),
            Doc::Line(LineKind::Hard),
            Doc::Text("/* c */"),
        ]
    );
}

#[test]
fn document_of_a_program_is_checked() {
    let source = "a";
    let p = || Prettier::new(source, vec![], PrettierOptions::default());
    let bad = vec![Element { start: 0, end: 1, doc: Doc::fill(vec![Doc::text("a"), Doc::line()]) }];
    assert_eq!(
        p().try_doc(bad),
        Err(FormatError::Document(Defect::MalformedFill { node: 1, len: 2 }))
    );
    let unknown = vec![Element {
        start: 0,
        end: 1,
        doc: Doc::if_break(Doc::text("a"), Doc::text("b"), Some(4)),
    }];
    assert_eq!(
        p().try_doc(unknown),
        Err(FormatError::Document(Defect::UnknownGroup { node: 1, id: 4 }))
    );
    let good = vec![Element { start: 0, end: 1, doc: Doc::text("a") }];
    assert_eq!(p().try_doc(good), Ok(Doc::Concat(vec![Doc::Text("a")])));
    let outside = vec![Element { start: 0, end: 2, doc: Doc::text("a") }];
    assert_eq!(p().try_doc(outside), Err(FormatError::Program));
}

#[test]
fn text_of_a_span() {
    assert_eq!(text_at("aé;b", 1, 4), Some("é;"));
    assert_eq!(text_at("aé;b", 2, 4), None);
    assert_eq!(text_at("aé;b", 3, 1), None);
    assert_eq!(text_at("aé;b", 0, 9), None);
    assert_eq!(text_at("aé;b", 5, 5), Some(""));
}

#[test]
fn blank_line_after_a_leading_block_comment_is_kept_once() {
    assert_eq!(
        format("/* c */ \n\nb", vec![block(0, 7)], &[(10, 11)]),
        Ok("/* c */\n\nb".to_string())
    );
    assert_eq!(
        format("/* c */\n\n\nb", vec![block(0, 7)], &[(10, 11)]),
        Ok("/* c */\n\nb".to_string())
    );
}
