use dprint_plugin_shebang::format_shebang;

#[test]
fn empty() {
    let text = "";
    assert_eq!(format_shebang(text).unwrap(), None);
}

#[test]
fn foo_bar() {
    let text = "foo\nbar";
    assert_eq!(format_shebang(text).unwrap(), None);
}

#[test]
fn basic() {
    let text = "#!/foo/bar\nquux";
    assert_eq!(format_shebang(text).unwrap(), Some(String::from(text)));
}

#[test]
fn basic_with_args() {
    let text = "#!/foo/bar -quux\nbaz";
    assert_eq!(format_shebang(text).unwrap(), Some(String::from(text)));
}

#[test]
fn pre_post_space() {
    let text = "#! \t /foo/bar \t \n quux";
    assert_eq!(
        format_shebang(text).unwrap(),
        Some(String::from("#!/foo/bar\n quux"))
    );
}

#[test]
fn pre_mid_post_space() {
    let text = "#! \t /foo/bar\t  -quux\t \nbaz";
    assert_eq!(
        format_shebang(text).unwrap(),
        Some(String::from("#!/foo/bar -quux\t \nbaz"))
    );
}

#[test]
fn non_ascii_arguments_are_kept() {
    let text = "#!  /usr/bin/env \t h\u{e9}llo w\u{f6}rld \nr\u{e9}st";
    assert_eq!(
        format_shebang(text).unwrap(),
        Some(String::from("#!/usr/bin/env h\u{e9}llo w\u{f6}rld \nr\u{e9}st"))
    );
}

#[test]
fn non_ascii_interpreter_is_kept() {
    let text = "#! /opt/\u{fc}ber   \n";
    assert_eq!(
        format_shebang(text).unwrap(),
        Some(String::from("#!/opt/\u{fc}ber\n"))
    );
}

#[test]
fn marker_only_is_no_directive() {
    assert_eq!(format_shebang("#!").unwrap(), None);
    assert_eq!(format_shebang("#! \t \nfoo").unwrap(), None);
    assert_eq!(format_shebang("#!\n/bin/sh").unwrap(), None);
}
