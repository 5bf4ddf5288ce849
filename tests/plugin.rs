use dprint_plugin_shebang::{Configuration, DecodeError, ShebangPluginHandler};

#[test]
fn format_whole_file() {
    let mut h = ShebangPluginHandler::default();
    let out = h.format(b"#!  /bin/bash  -eu\necho\n".to_vec(), None).unwrap();
    assert_eq!(out, Some(b"#!/bin/bash -eu\necho\n".to_vec()));
    assert_eq!(h.format(b"#!/bin/bash -eu\n".to_vec(), None).unwrap(), None);
}

#[test]
fn format_range_not_at_start_is_skipped() {
    let mut h = ShebangPluginHandler::default();
    assert_eq!(h.format(b"#!  /bin/sh\n".to_vec(), Some(1..5)).unwrap(), None);
    assert_eq!(h.format(vec![0xff, 0xfe], Some(1..2)).unwrap(), None);
}

#[test]
fn format_range_at_start_formats_prefix() {
    let mut h = ShebangPluginHandler::default();
    let out = h.format(b"#!  /bin/sh  -x\nrest".to_vec(), Some(0..11)).unwrap();
    assert_eq!(out, Some(b"#!/bin/sh".to_vec()));
}

#[test]
fn format_rejects_invalid_utf8() {
    let mut h = ShebangPluginHandler::default();
    assert_eq!(h.format(vec![b'#', b'!', b' ', 0xff, b'\n'], None), Err(DecodeError));
    assert_eq!(h.format(vec![0xc3], None), Err(DecodeError));
}

#[test]
fn format_accepts_non_ascii() {
    let mut h = ShebangPluginHandler::default();
    let text = "#! /bin/sh\n\u{e9}t\u{e9}\n";
    assert_eq!(
        h.format(text.as_bytes().to_vec(), None).unwrap(),
        Some("#!/bin/sh\n\u{e9}t\u{e9}\n".as_bytes().to_vec())
    );
}

#[test]
fn file_matching_tables() {
    let exts = ShebangPluginHandler::file_extensions();
    assert_eq!(exts.len(), 35);
    assert_eq!(exts[0], "awk");
    assert!(exts.contains(&"sh") && exts.contains(&"SlackBuild") && exts.contains(&"stp"));
    assert_eq!(ShebangPluginHandler::file_names(), vec!["Makefile", "GNUmakefile"]);
}

#[test]
fn configuration_has_no_options() {
    let c = Configuration {};
    let _copy = c.clone();
}
