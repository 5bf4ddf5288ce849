use dprint_plugin_shebang::{normalize, parse_directive, render_directive, Directive};

fn norm(text: &str) -> Option<String> {
    normalize(text.as_bytes()).map(|v| String::from_utf8(v).unwrap())
}

#[test]
fn scenario_empty_text() {
    assert_eq!(norm(""), None);
}

#[test]
fn scenario_no_marker() {
    assert_eq!(norm("foo\nbar"), None);
}

#[test]
fn scenario_already_canonical() {
    assert_eq!(norm("#!/foo/bar\nquux"), None);
    assert_eq!(norm("#!/foo/bar -quux\nbaz"), None);
}

#[test]
fn scenario_blanks_around_interpreter() {
    assert_eq!(norm("#! \t /foo/bar \t \n quux"), Some(String::from("#!/foo/bar\n quux")));
}

#[test]
fn scenario_blanks_around_arguments() {
    assert_eq!(
        norm("#! \t /foo/bar\t  -quux\t \nbaz"),
        Some(String::from("#!/foo/bar -quux\t \nbaz"))
    );
}

#[test]
fn marker_must_be_at_offset_zero() {
    assert_eq!(norm(" #!  /bin/sh\n"), None);
    assert_eq!(norm("x\n#!  /bin/sh\n"), None);
    assert_eq!(norm("#"), None);
}

#[test]
fn rest_of_text_is_untouched() {
    let text = "#!   /bin/sh   -e\n  echo  \t hi  \n#!  again\n";
    let out = norm(text).unwrap();
    assert_eq!(out, "#!/bin/sh -e\n  echo  \t hi  \n#!  again\n");
    assert!(out.ends_with(&text[text.find('\n').unwrap()..]));
}

#[test]
fn rewriting_twice_changes_nothing() {
    for text in [
        "#! \t /foo/bar \t \n quux",
        "#! \t /foo/bar\t  -quux\t \nbaz",
        "#!\t/usr/bin/env  python3  -u \r\nprint(1)\n",
        "#!  /bin/sh",
    ] {
        let once = norm(text).unwrap();
        assert_eq!(norm(&once), None);
    }
    let long = format!("#!  /bin/sh \t {}  x\nrest", "a".repeat(1500));
    let once = norm(&long).unwrap();
    assert_eq!(norm(&once), None);
}

#[test]
fn separators_collapse_and_argument_blanks_stay() {
    assert_eq!(norm("#!\t/bin/sh\t-x  \n"), Some(String::from("#!/bin/sh -x  \n")));
    assert_eq!(norm("#!/bin/sh  -x\t\ty \n"), Some(String::from("#!/bin/sh -x\t\ty \n")));
    assert_eq!(norm("#!/bin/sh\t-x"), Some(String::from("#!/bin/sh -x")));
}

#[test]
fn directive_without_arguments() {
    assert_eq!(norm("#!/bin/sh  \nx"), Some(String::from("#!/bin/sh\nx")));
    assert_eq!(norm("#!/bin/sh \t"), Some(String::from("#!/bin/sh")));
    assert_eq!(norm("#!/bin/sh\nx"), None);
    assert_eq!(norm("#!/bin/sh"), None);
}

#[test]
fn carriage_return_ends_the_line() {
    assert_eq!(norm("#!  /bin/sh \r\nx"), Some(String::from("#!/bin/sh\r\nx")));
    assert_eq!(norm("#! /bin/sh\r  -x \n"), Some(String::from("#!/bin/sh\r  -x \n")));
}

#[test]
fn interpreter_beyond_scan_limit_is_not_seen() {
    let text = format!("#!{}/bin/sh\n", " ".repeat(1024));
    assert_eq!(norm(&text), None);
    let text = format!("#!{}/bin/sh\n", " ".repeat(1021));
    assert_eq!(norm(&text), Some(String::from("#!/bin/sh\n")));
}

#[test]
fn long_first_line_ends_at_scan_limit() {
    let text = format!("#!  {}", "a".repeat(1100));
    assert_eq!(norm(&text), Some(format!("#!{}", "a".repeat(1100))));
    let text = format!("#!/bin/sh  {}  x", "a".repeat(1100));
    assert_eq!(norm(&text), Some(format!("#!/bin/sh {}  x", "a".repeat(1100))));
}

#[test]
fn parse_gives_offsets() {
    let d = parse_directive(b"#! /bin/sh  -e \nx").unwrap();
    assert_eq!(d.interpreter_start, 3);
    assert_eq!(d.interpreter_end, 10);
    assert_eq!(d.arguments_start, Some(12));
    assert_eq!(d.line_end, 15);
    let d = parse_directive(b"#!/bin/sh").unwrap();
    assert_eq!((d.interpreter_start, d.interpreter_end, d.arguments_start, d.line_end), (2, 9, None, 9));
    assert!(parse_directive(b"# !/bin/sh").is_none());
}

#[test]
fn render_uses_offsets() {
    let text = b"#!   sh   -x  \nrest";
    let d = Directive { interpreter_start: 5, interpreter_end: 7, arguments_start: Some(10), line_end: 14 };
    assert_eq!(render_directive(text, &d), b"#!sh -x  \nrest".to_vec());
    let d = Directive { interpreter_start: 5, interpreter_end: 7, arguments_start: None, line_end: 14 };
    assert_eq!(render_directive(text, &d), b"#!sh\nrest".to_vec());
}
