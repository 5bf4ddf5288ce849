use vstd::prelude::*;
use vstd::utf8::valid_utf8;

use crate::directive::{normalize, normalized};
use crate::text::{utf8_text, DecodeError};

verus! {

/// The formatter that brings directive lines into canonical form.
#[derive(Default)]
pub struct ShebangPluginHandler;

/// The formatter's configuration: it has no options.
#[derive(Clone)]
pub struct Configuration {}

/// A request for a range that does not start at the beginning of the file:
/// a directive line can only stand there, so such a request changes nothing.
pub open spec fn skips_range(range: Option<std::ops::Range<usize>>) -> bool {
    range matches Some(g) && g.start != 0
}

/// The bytes that a request asks to be formatted.
pub open spec fn requested(file: Seq<u8>, range: Option<std::ops::Range<usize>>) -> Seq<u8> {
    match range {
        Some(g) => file.subrange(0, g.end as int),
        None => file,
    }
}

impl ShebangPluginHandler {
    /// Formats `file_bytes`, or the part of it that `range` selects: the
    /// replacement, or `None` when nothing is to change.
    pub fn format(&mut self, file_bytes: Vec<u8>, range: Option<std::ops::Range<usize>>) -> (r:
        Result<Option<Vec<u8>>, DecodeError>)
        requires
            range matches Some(g) ==> (g.start == 0 ==> g.end <= file_bytes@.len()),
        ensures
            skips_range(range) ==> r matches Ok(None),
            !skips_range(range) && !valid_utf8(requested(file_bytes@, range)) ==> r matches Err(
                _,
            ),
            !skips_range(range) && valid_utf8(requested(file_bytes@, range)) ==> (r matches Ok(o)
                && (o matches Some(v) ==> normalized(requested(file_bytes@, range)) == Some(v@))
                && (o is None ==> normalized(requested(file_bytes@, range)) is None)),
    {
        let mut bytes = file_bytes;
        match range {
            Some(g) => {
                if g.start != 0 {
                    return Ok(None);
                }
                bytes.truncate(g.end);
                assert(bytes@ =~= requested(file_bytes@, range));
            },
            None => {},
        }
        if utf8_text(bytes.as_slice()).is_none() {
            return Err(DecodeError);
        }
        Ok(normalize(bytes.as_slice()))
    }

    /// The file extensions of the scripts that the formatter is offered.
    pub fn file_extensions() -> (r: Vec<&'static str>)
        ensures
            r@ == seq![
                "awk", "bats", "cgi", "d", "exs", "java", "js", "ts", "kts", "lua", "mk",
                "php", "php3", "php4", "php5", "pl", "t", "perl", "postinst", "postrm",
                "preinst", "prerm", "ps1", "py", "rb", "sed", "sh", "bash", "csh", "fish",
                "ksh", "tcsh", "zsh", "SlackBuild", "stp",
            ],
    {
        vec![
            "awk", "bats", "cgi", "d", "exs", "java", "js", "ts", "kts", "lua", "mk",
            "php", "php3", "php4", "php5", "pl", "t", "perl", "postinst", "postrm",
            "preinst", "prerm", "ps1", "py", "rb", "sed", "sh", "bash", "csh", "fish",
            "ksh", "tcsh", "zsh", "SlackBuild", "stp",
        ]
    }

    /// The exact file names of the scripts that the formatter is offered.
    pub fn file_names() -> (r: Vec<&'static str>)
        ensures
            r@ == seq!["Makefile", "GNUmakefile"],
    {
        vec!["Makefile", "GNUmakefile"]
    }
}

} // verus!
