use oxc_prettier::doc::{Doc, GroupIds};
use oxc_prettier::options::{EndOfLine, OptionsError, PrettierOptions, TrailingComma};
use oxc_prettier::options::trailing_comma_doc;
use oxc_prettier::printer::Printer;
use oxc_prettier::propagate::propagate_breaks;
use oxc_prettier::validate::{check, Defect};
use oxc_prettier::{format_doc, FormatError};

fn opts(print_width: usize) -> PrettierOptions {
    PrettierOptions { print_width, ..PrettierOptions::default() }
}

fn text(doc: Doc<'_>, print_width: usize) -> String {
    format_doc(doc, "", opts(print_width)).unwrap()
}

fn parens<'a>() -> Doc<'a> {
    Doc::group(Doc::concat(vec![
        Doc::text("("),
        Doc::indent(Doc::concat(vec![Doc::line(), Doc::text("a")])),
        Doc::line(),
        Doc::text(")"),
    ]))
}

#[test]
fn a_line_holds_one_column_less_than_the_width() {
    let doc = || Doc::group(Doc::concat(vec![Doc::text("ab"), Doc::line(), Doc::text("cd")]));
    assert_eq!(text(doc(), 6), "ab cd");
    assert_eq!(text(doc(), 5), "ab\ncd");
}

#[test]
fn indent_adds_one_tab_stop_of_spaces() {
    assert_eq!(text(parens(), 80), "( a )");
    assert_eq!(text(parens(), 3), "(\n  a\n)");
}

#[test]
fn indent_with_tabs() {
    let options = PrettierOptions { print_width: 3, use_tabs: true, tab_width: 4, ..PrettierOptions::default() };
    assert_eq!(format_doc(parens(), "", options), Ok("(\n\ta\n)".to_string()));
}

#[test]
fn tab_width_sets_the_spaces_of_a_stop() {
    let options = PrettierOptions { print_width: 3, tab_width: 4, ..PrettierOptions::default() };
    assert_eq!(format_doc(parens(), "", options), Ok("(\n    a\n)".to_string()));
}

#[test]
fn align_adds_columns() {
    let doc = Doc::align(3, Doc::concat(vec![Doc::text("a"), Doc::hardline(), Doc::text("x")]));
    assert_eq!(text(doc, 80), "a\n   x");
}

#[test]
fn align_after_indent_mixes_tabs_and_spaces() {
    let doc = Doc::indent(Doc::align(
        3,
        Doc::concat(vec![Doc::text("a"), Doc::hardline(), Doc::text("x")]),
    ));
    let options = PrettierOptions { use_tabs: true, ..PrettierOptions::default() };
    assert_eq!(format_doc(doc, "", options), Ok("a\n\t   x".to_string()));
}

#[test]
fn literal_line_drops_the_indentation() {
    let hard = Doc::indent(Doc::concat(vec![Doc::text("a"), Doc::hardline(), Doc::text("b")]));
    let literal =
        Doc::indent(Doc::concat(vec![Doc::text("a"), Doc::literalline(), Doc::text("b")]));
    assert_eq!(text(hard, 80), "a\n  b");
    assert_eq!(text(literal, 80), "a\nb");
}

#[test]
fn bare_soft_line_is_nothing_when_flat() {
    let doc = || Doc::group(Doc::concat(vec![Doc::text("a"), Doc::softline(), Doc::text("b")]));
    assert_eq!(text(doc(), 80), "ab");
    assert_eq!(text(doc(), 1), "a\nb");
}

#[test]
fn if_break_follows_the_enclosing_group() {
    let doc = || {
        Doc::group(Doc::concat(vec![
            Doc::text("["),
            Doc::if_break(Doc::text("B"), Doc::text("F"), None),
            Doc::line(),
            Doc::text("]"),
        ]))
    };
    assert_eq!(text(doc(), 80), "[F ]");
    assert_eq!(text(doc(), 2), "[B\n]");
}

#[test]
fn if_break_follows_the_group_it_names() {
    let doc = || {
        Doc::concat(vec![
            Doc::group_with_id(7, Doc::concat(vec![Doc::text("aaaa"), Doc::line(), Doc::text("bbbb")])),
            Doc::if_break(Doc::text("!"), Doc::text("?"), Some(7)),
        ])
    };
    assert_eq!(text(doc(), 80), "aaaa bbbb?");
    assert_eq!(text(doc(), 5), "aaaa\nbbbb!");
}

#[test]
fn trim_erases_the_blanks_that_end_the_line() {
    let doc = Doc::concat(vec![Doc::text("a \t "), Doc::trim(), Doc::text("b")]);
    assert_eq!(text(doc, 80), "ab");
}

#[test]
fn trim_stops_at_the_start_of_the_line() {
    let doc = Doc::indent(Doc::concat(vec![Doc::text("a"), Doc::hardline(), Doc::trim(), Doc::text("b")]));
    assert_eq!(text(doc, 80), "a\nb");
}

#[test]
fn line_suffix_waits_for_the_next_newline() {
    let doc = Doc::concat(vec![
        Doc::text("a"),
        Doc::line_suffix(Doc::text(" // c")),
        Doc::text(";"),
        Doc::hardline(),
        Doc::text("b"),
    ]);
    assert_eq!(text(doc, 80), "a; // c\nb");
}

#[test]
fn line_suffixes_come_out_in_order() {
    let doc = Doc::concat(vec![
        Doc::line_suffix(Doc::text("1")),
        Doc::line_suffix(Doc::text("2")),
        Doc::text("a"),
        Doc::hardline(),
    ]);
    assert_eq!(text(doc, 80), "a12\n");
}

#[test]
fn line_suffix_is_flushed_at_the_end() {
    let doc = Doc::concat(vec![Doc::text("a"), Doc::line_suffix(Doc::text(" // c"))]);
    assert_eq!(text(doc, 80), "a // c");
}

#[test]
fn conditional_group_takes_the_first_state_that_fits() {
    let doc = || Doc::conditional_group(Doc::text("loooong"), vec![Doc::text("short"), Doc::text("tiny")]);
    assert_eq!(text(doc(), 80), "loooong");
    assert_eq!(text(doc(), 6), "short");
    assert_eq!(text(doc(), 5), "tiny");
    assert_eq!(text(doc(), 2), "tiny");
}

#[test]
fn fill_puts_on_a_line_what_fits() {
    let doc = || {
        Doc::fill(vec![Doc::text("a"), Doc::line(), Doc::text("b"), Doc::line(), Doc::text("c")])
    };
    assert_eq!(text(doc(), 80), "a b c");
    assert_eq!(text(doc(), 4), "a b\nc");
    assert_eq!(text(doc(), 1), "a\nb\nc");
}

#[test]
fn break_parent_breaks_the_group() {
    let doc = Doc::group(Doc::concat(vec![
        Doc::text("a"),
        Doc::break_parent(),
        Doc::line(),
        Doc::text("b"),
    ]));
    assert_eq!(text(doc, 80), "a\nb");
}

#[test]
fn printer_marks_before_it_prints() {
    let doc = || {
        Doc::group(Doc::concat(vec![
            Doc::text("x"),
            Doc::line(),
            Doc::group(Doc::concat(vec![Doc::text("a"), Doc::hardline(), Doc::text("b")])),
        ]))
    };
    let printed = Printer::new(doc(), "", PrettierOptions::default()).build();
    assert_eq!(printed, "x\na\nb");
    assert_eq!(format_doc(doc(), "", PrettierOptions::default()), Ok(printed));
}

#[test]
fn conditional_group_keeps_a_forced_break_to_itself() {
    let mut doc = Doc::group(Doc::conditional_group(
        Doc::concat(vec![Doc::text("a"), Doc::hardline()]),
        vec![Doc::text("s")],
    ));
    assert!(!propagate_breaks(&mut doc));
    let mut plain = Doc::indent(Doc::concat(vec![Doc::text("a"), Doc::literalline()]));
    assert!(propagate_breaks(&mut plain));
    let mut soft = Doc::concat(vec![Doc::text("a"), Doc::line(), Doc::softline(), Doc::trim()]);
    assert!(!propagate_breaks(&mut soft));
}

#[test]
fn line_breaks_follow_the_option() {
    let doc = || Doc::concat(vec![Doc::text("a"), Doc::hardline(), Doc::text("x\ny")]);
    let with = |end_of_line| PrettierOptions { end_of_line, ..PrettierOptions::default() };
    assert_eq!(format_doc(doc(), "", with(EndOfLine::Lf)), Ok("a\nx\ny".to_string()));
    assert_eq!(format_doc(doc(), "", with(EndOfLine::Crlf)), Ok("a\r\nx\r\ny".to_string()));
    assert_eq!(format_doc(doc(), "", with(EndOfLine::Cr)), Ok("a\rx\ry".to_string()));
}

#[test]
fn auto_takes_the_first_line_break_of_the_source() {
    let doc = || Doc::concat(vec![Doc::text("a"), Doc::hardline(), Doc::text("b")]);
    let auto = PrettierOptions { end_of_line: EndOfLine::Auto, ..PrettierOptions::default() };
    assert_eq!(format_doc(doc(), "x\r\ny\nz", auto), Ok("a\r\nb".to_string()));
    assert_eq!(format_doc(doc(), "x\ry\r\nz", auto), Ok("a\rb".to_string()));
    assert_eq!(format_doc(doc(), "x\ny\r", auto), Ok("a\rb".to_string()));
    assert_eq!(format_doc(doc(), "xyz", auto), Ok("a\nb".to_string()));
    assert_eq!(EndOfLine::Auto.settle("q\n"), EndOfLine::Lf);
    assert_eq!(EndOfLine::Crlf.settle("q\n"), EndOfLine::Crlf);
}

#[test]
fn width_counts_characters_not_bytes() {
    let doc = || Doc::group(Doc::concat(vec![Doc::text("éé"), Doc::line(), Doc::text("ü")]));
    assert_eq!(text(doc(), 5), "éé ü");
    assert_eq!(text(doc(), 4), "éé\nü");
}

#[test]
fn zero_widths_are_refused() {
    let no_width = PrettierOptions { print_width: 0, tab_width: 0, ..PrettierOptions::default() };
    let no_tab = PrettierOptions { tab_width: 0, ..PrettierOptions::default() };
    assert_eq!(no_width.validate(), Err(OptionsError::ZeroPrintWidth));
    assert_eq!(no_tab.validate(), Err(OptionsError::ZeroTabWidth));
    assert_eq!(PrettierOptions::default().validate(), Ok(()));
    assert_eq!(
        format_doc(Doc::text("a"), "", no_tab),
        Err(FormatError::Options(OptionsError::ZeroTabWidth))
    );
}

#[test]
fn default_options() {
    let o = PrettierOptions::default();
    assert_eq!(o.print_width, 80);
    assert_eq!(o.tab_width, 2);
    assert!(!o.use_tabs);
    assert_eq!(o.trailing_comma, TrailingComma::All);
    assert_eq!(o.end_of_line, EndOfLine::Lf);
}

#[test]
fn even_fill_is_a_defect() {
    let doc = Doc::concat(vec![Doc::text("x"), Doc::fill(vec![Doc::text("a"), Doc::line()])]);
    assert_eq!(check(&doc, 2), Err(Defect::MalformedFill { node: 2, len: 2 }));
    assert_eq!(
        format_doc(doc, "", opts(80)),
        Err(FormatError::Document(Defect::MalformedFill { node: 2, len: 2 }))
    );
    assert_eq!(check(&Doc::fill(vec![]), 2), Err(Defect::MalformedFill { node: 0, len: 0 }));
}

#[test]
fn unknown_group_is_a_defect() {
    let early = Doc::concat(vec![
        Doc::if_break(Doc::text("!"), Doc::text("?"), Some(7)),
        Doc::group_with_id(7, Doc::text("a")),
    ]);
    assert_eq!(check(&early, 2), Err(Defect::UnknownGroup { node: 1, id: 7 }));
    let enclosed = Doc::group_with_id(7, Doc::if_break(Doc::text("!"), Doc::text("?"), Some(7)));
    assert_eq!(check(&enclosed, 2), Ok(()));
    let after = Doc::concat(vec![
        Doc::group_with_id(7, Doc::text("a")),
        Doc::if_break(Doc::text("!"), Doc::text("?"), Some(7)),
    ]);
    assert_eq!(check(&after, 2), Ok(()));
}

#[test]
fn first_defect_in_reading_order_is_named() {
    let doc = Doc::concat(vec![
        Doc::indent(Doc::if_break(Doc::text("!"), Doc::text("?"), Some(3))),
        Doc::fill(vec![]),
    ]);
    assert_eq!(check(&doc, 2), Err(Defect::UnknownGroup { node: 2, id: 3 }));
}

#[test]
fn too_heavy_a_document_is_refused() {
    let doc = Doc::align(usize::MAX, Doc::text("a"));
    assert_eq!(check(&doc, 2), Err(Defect::TooLarge));
    let deep = Doc::indent(Doc::indent(Doc::text("a")));
    assert_eq!(check(&deep, 0x4000_0000), Err(Defect::TooLarge));
    assert_eq!(check(&deep, 2), Ok(()));
}

fn list<'a>(policy: TrailingComma, level_all: bool) -> Doc<'a> {
    Doc::group(Doc::concat(vec![
        Doc::text("["),
        Doc::indent(Doc::concat(vec![
            Doc::softline(),
            Doc::text("a"),
            trailing_comma_doc(policy, level_all),
        ])),
        Doc::softline(),
        Doc::text("]"),
    ]))
}

#[test]
fn trailing_comma_appears_only_in_a_broken_list() {
    assert_eq!(text(list(TrailingComma::All, false), 80), "[a]");
    assert_eq!(text(list(TrailingComma::All, false), 2), "[\n  a,\n]");
    assert_eq!(text(list(TrailingComma::All, true), 2), "[\n  a,\n]");
    assert_eq!(text(list(TrailingComma::ES5, false), 2), "[\n  a,\n]");
    assert_eq!(text(list(TrailingComma::ES5, true), 2), "[\n  a\n]");
    assert_eq!(text(list(TrailingComma::Never, false), 2), "[\n  a\n]");
    assert_eq!(text(list(TrailingComma::Never, true), 2), "[\n  a\n]");
}

#[test]
fn group_handles_are_issued_in_order() {
    let mut ids = GroupIds::new();
    assert_eq!(ids.fresh(), Some(0));
    assert_eq!(ids.fresh(), Some(1));
}

#[test]
fn group_in_a_flat_group_is_flat() {
    let doc = || {
        Doc::group(Doc::concat(vec![
            Doc::text("f("),
            Doc::group(Doc::concat(vec![Doc::text("a,"), Doc::line(), Doc::text("b")])),
            Doc::softline(),
            Doc::text(")"),
        ]))
    };
    assert_eq!(text(doc(), 8), "f(a, b)");
    assert_eq!(text(doc(), 7), "f(a, b\n)");
    assert_eq!(text(doc(), 6), "f(a,\nb\n)");
}

#[test]
fn repeated_group_handle_is_a_defect() {
    let doc = Doc::concat(vec![
        Doc::group_with_id(7, Doc::text("a")),
        Doc::group_with_id(7, Doc::text("b")),
    ]);
    assert_eq!(check(&doc, 2), Err(Defect::DuplicateGroup { node: 3, id: 7 }));
    let nested = Doc::group_with_id(1, Doc::group_with_id(1, Doc::text("a")));
    assert_eq!(check(&nested, 2), Err(Defect::DuplicateGroup { node: 1, id: 1 }));
    let distinct = Doc::group_with_id(1, Doc::group_with_id(2, Doc::text("a")));
    assert_eq!(check(&distinct, 2), Ok(()));
    assert_eq!(
        format_doc(doc, "", opts(80)),
        Err(FormatError::Document(Defect::DuplicateGroup { node: 3, id: 7 }))
    );
}

#[test]
fn line_with_a_flat_group_stays_within_the_width() {
    let doc = |print_width| {
        let words = vec![
            Doc::text("let"),
            Doc::line(),
            Doc::group(Doc::concat(vec![Doc::text("x"), Doc::line(), Doc::text("=")])),
            Doc::line(),
            Doc::group(Doc::concat(vec![Doc::text("call("), Doc::softline(), Doc::text(")")])),
            Doc::line_suffix(Doc::text(" // a remark past the width")),
            Doc::hardline(),
            Doc::text("done"),
        ];
        text(Doc::group(Doc::concat(words)), print_width)
    };
    for print_width in 1..20 {
        let printed = doc(print_width);
        for line in printed.lines() {
            let own = line.split(" //").next().unwrap();
            let holds_flat_group = own.contains("x =") || own.contains("call()");
            assert!(!holds_flat_group || own.chars().count() < print_width, "{printed:?}");
        }
    }
}
