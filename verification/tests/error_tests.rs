use langfront::error::{extract_context, Errors, InFile};
use langfront::pos::{Location, Span, Spanned};

#[derive(Debug, PartialEq, Clone)]
struct Oops(&'static str);

fn at(line: i32, start: i32, end: i32, value: Oops) -> Spanned<Oops> {
    Spanned {
        span: Span {
            start: Location { line, column: start, absolute: 0 },
            end: Location { line, column: end, absolute: 0 },
        },
        value,
    }
}

#[test]
fn rendering_quotes_the_line_and_marks_the_span() {
    let mut errors = Errors::new();
    errors.error(Spanned {
        span: at(2, 5, 8, Oops("")).span,
        value: "<error>".to_string(),
    });
    let in_file = InFile::new("f.ml".to_string(), "aa\nbbbbbbbb\n", errors);
    assert_eq!(in_file.render(), "f.ml:<error>\nbbbbbbbb\n    ^~~\n");
}

#[test]
fn errors_come_back_as_they_went_in() {
    let mut errors = Errors::new();
    errors.error(at(1, 1, 2, Oops("a")));
    errors.error(at(7, 3, 4, Oops("b")));
    errors.error(at(2, 1, 1, Oops("c")));
    let expected = vec![at(1, 1, 2, Oops("a")), at(7, 3, 4, Oops("b")), at(2, 1, 1, Oops("c"))];
    let in_file = InFile::new("f.ml".to_string(), "one\ntwo\n", errors);
    assert_eq!(in_file.errors().errors, expected);
}

#[test]
fn a_line_that_is_missing_reads_n_a() {
    let lines = vec!["one".to_string()];
    assert_eq!(extract_context(&lines, at(1, 1, 2, Oops("a"))).context, "one");
    assert_eq!(extract_context(&lines, at(2, 1, 2, Oops("a"))).context, "N/A");
    assert_eq!(extract_context(&lines, at(0, 1, 2, Oops("a"))).context, "N/A");
    assert_eq!(extract_context(&lines, at(-1, 1, 2, Oops("a"))).context, "N/A");
}

#[test]
fn a_list_knows_whether_it_holds_errors() {
    let mut errors = Errors::new();
    assert!(!errors.has_errors());
    errors.error(Oops("a"));
    assert!(errors.has_errors());
    errors.error(Oops("b"));
    assert_eq!(errors.errors, vec![Oops("a"), Oops("b")]);
}

#[test]
fn a_list_of_messages_renders_one_line_each() {
    let mut errors = Errors::new();
    assert_eq!(errors.render(), "");
    errors.error("first".to_string());
    errors.error("second".to_string());
    assert_eq!(errors.render(), "first\nsecond\n");
}

fn message(line: i32, start: i32, end: i32, text: &str) -> Spanned<String> {
    Spanned { span: at(line, start, end, Oops("")).span, value: text.to_string() }
}

#[test]
fn several_errors_render_one_after_the_other() {
    let mut errors = Errors::new();
    errors.error(message(1, 1, 3, "first"));
    errors.error(message(3, 2, 3, "second"));
    errors.error(message(9, 3, 6, "third"));
    let in_file = InFile::new("m.ml".to_string(), "ab\r\ncd\nef", errors);
    assert_eq!(
        in_file.render(),
        "m.ml:first\nab\n^~\nm.ml:second\nef\n ^\nm.ml:third\nN/A\n  ^~~\n"
    );
}

#[test]
fn a_span_that_ends_where_it_starts_gets_only_the_caret() {
    let entry = extract_context(&vec!["abc".to_string()], message(1, 2, 2, "m"));
    assert_eq!(entry.render("f"), "f:m\nabc\n ^\n");
    let backwards = extract_context(&vec!["abc".to_string()], message(1, 3, 1, "m"));
    assert_eq!(backwards.render("f"), "f:m\nabc\n  ^\n");
    let column_zero = extract_context(&vec!["abc".to_string()], message(1, 0, 3, "m"));
    assert_eq!(column_zero.render("f"), "f:m\nabc\n^~~\n");
}

#[test]
fn lines_given_directly_are_used_as_they_are() {
    let mut errors = Errors::new();
    errors.error(message(2, 1, 2, "m"));
    let lines = vec!["one".to_string(), "two".to_string()];
    let in_file = InFile::with_lines("f".to_string(), &lines, errors);
    assert_eq!(in_file.render(), "f:m\ntwo\n^\n");
}

fn context_of(contents: &str, line: i32) -> String {
    let mut errors = Errors::new();
    errors.error(message(line, 1, 2, "m"));
    let in_file = InFile::new("f".to_string(), contents, errors);
    in_file.contexts()[0].context.clone()
}

#[test]
fn lines_end_at_line_feeds() {
    assert_eq!(context_of("a\n\nb", 1), "a");
    assert_eq!(context_of("a\n\nb", 2), "");
    assert_eq!(context_of("a\n\nb", 3), "b");
    assert_eq!(context_of("a\n\nb", 4), "N/A");
    assert_eq!(context_of("a\nb\n", 2), "b");
    assert_eq!(context_of("a\nb\n", 3), "N/A");
    assert_eq!(context_of("\n", 1), "");
    assert_eq!(context_of("\n", 2), "N/A");
    assert_eq!(context_of("", 1), "N/A");
}

#[test]
fn a_carriage_return_belongs_to_the_line_end_only_before_a_line_feed() {
    assert_eq!(context_of("a\r\nb", 1), "a");
    assert_eq!(context_of("a\r\nb", 2), "b");
    assert_eq!(context_of("a\rb\nc", 1), "a\rb");
    assert_eq!(context_of("a\r", 1), "a\r");
    assert_eq!(context_of("a\r\r\n", 1), "a\r");
    assert_eq!(context_of("\r\n\r\n", 2), "");
    assert_eq!(context_of("\r\n\r\n", 3), "N/A");
}

#[test]
fn the_file_name_and_the_entries_can_be_read() {
    let mut errors = Errors::new();
    errors.error(at(1, 1, 2, Oops("a")));
    let in_file = InFile::new("name.ml".to_string(), "text", errors);
    assert_eq!(in_file.file_name(), "name.ml");
    assert_eq!(in_file.contexts().len(), 1);
    assert_eq!(in_file.contexts()[0].context, "text");
    assert_eq!(in_file.contexts()[0].error, at(1, 1, 2, Oops("a")));
}
