use vstd::prelude::*;
use vstd::string::StringSliceAdditionalSpecFns;
use vstd::utf8::{
    encode_utf8, encode_utf8_valid_utf8, is_char_boundary_iff_not_is_continuation_byte,
    is_continuation_byte, valid_utf8, valid_utf8_concat, valid_utf8_split,
};

use crate::directive::{
    args_start, canonical_text, has_args, interp_end, interp_start, is_blank, is_directive,
    line_end, shebang_line,
};
use crate::laws::lemma_directive_shape;

verus! {

/// The input bytes are not valid UTF-8.
#[derive(Debug, Clone, Copy, PartialEq, Eq, Structural)]
pub struct DecodeError;

/// Relies on `std::str::from_utf8`: it accepts exactly the byte strings that
/// are valid UTF-8, and the text it returns is made of those same bytes.
#[verifier::external_body]
pub(crate) fn utf8_text(b: &[u8]) -> (r: Option<&str>)
    ensures
        (r is Some) == valid_utf8(b@),
        r matches Some(s) ==> s.spec_bytes() == b@,
{
    std::str::from_utf8(b).ok()
}

proof fn lemma_ascii_valid(s: Seq<u8>)
    requires
        forall|k: int| 0 <= k < s.len() ==> #[trigger] s[k] <= 0x7fu8,
    ensures
        valid_utf8(s),
    decreases s.len(),
{
    if s.len() > 0 {
        let b = s[0];
        assert((b & 0x7fu8) <= 0x7fu8) by (bit_vector);
        lemma_ascii_valid(s.subrange(1, s.len() as int));
    }
}

proof fn lemma_drop_ascii(s: Seq<u8>, i: int, j: int)
    requires
        0 <= i <= j <= s.len(),
        valid_utf8(s.subrange(i, s.len() as int)),
        forall|k: int| i <= k < j ==> #[trigger] s[k] <= 0x7fu8,
    ensures
        valid_utf8(s.subrange(j, s.len() as int)),
    decreases j - i,
{
    if i < j {
        let tail = s.subrange(i, s.len() as int);
        assert(tail[0] == s[i]);
        assert(tail.subrange(1, tail.len() as int) =~= s.subrange(i + 1, s.len() as int));
        lemma_drop_ascii(s, i + 1, j);
    }
}

proof fn lemma_cut_before_ascii(s: Seq<u8>, i: int, m: int)
    requires
        0 <= i <= m < s.len(),
        valid_utf8(s.subrange(i, s.len() as int)),
        s[m] <= 0x7fu8,
    ensures
        valid_utf8(s.subrange(i, m)),
        valid_utf8(s.subrange(m, s.len() as int)),
{
    let tail = s.subrange(i, s.len() as int);
    assert(tail[m - i] == s[m]);
    assert(!is_continuation_byte(tail[m - i]));
    is_char_boundary_iff_not_is_continuation_byte(tail, m - i);
    valid_utf8_split(tail, m - i);
    assert(tail.subrange(0, m - i) =~= s.subrange(i, m));
    assert(tail.subrange(m - i, tail.len() as int) =~= s.subrange(m, s.len() as int));
}

/// Rewriting a directive line of a valid UTF-8 text leaves valid UTF-8: only
/// ASCII blanks are taken out, and one ASCII space may be put in.
pub proof fn lemma_canonical_valid(t: Seq<u8>)
    requires
        valid_utf8(t),
        is_directive(t),
    ensures
        valid_utf8(shebang_line(t).unwrap()),
{
    lemma_directive_shape(t);
    let is = interp_start(t);
    let ie = interp_end(t);
    let a = args_start(t);
    let le = line_end(t);
    let len = t.len() as int;
    let marker = seq![0x23u8, 0x21u8];
    let space = seq![0x20u8];
    lemma_ascii_valid(marker);
    lemma_ascii_valid(space);
    assert(t.subrange(0, len) =~= t);
    lemma_drop_ascii(t, 0, 2);
    lemma_drop_ascii(t, 2, is);
    let interp = t.subrange(is, ie);
    let u = shebang_line(t).unwrap();
    if !has_args(t) && ie == le {
        assert(u =~= marker + t.subrange(is, len));
        valid_utf8_concat(marker, t.subrange(is, len));
    } else {
        // a blank ends the interpreter
        assert(is_blank(t[ie]));
        lemma_cut_before_ascii(t, is, ie);
        lemma_drop_ascii(t, ie, a);
        valid_utf8_concat(marker, interp);
        if has_args(t) {
            valid_utf8_concat(space, t.subrange(a, len));
            assert(u =~= (marker + interp) + (space + t.subrange(a, len)));
            valid_utf8_concat(marker + interp, space + t.subrange(a, len));
        } else {
            assert(u =~= (marker + interp) + t.subrange(le, len));
            valid_utf8_concat(marker + interp, t.subrange(le, len));
        }
    }
}

/// The text with its directive line in canonical form, or `None` when it
/// opens with no directive.
pub fn format_shebang(text: &str) -> (r: Result<Option<String>, DecodeError>)
    ensures
        shebang_line(text.spec_bytes()) is None ==> r matches Ok(None),
        shebang_line(text.spec_bytes()) matches Some(u) ==> (r matches Ok(Some(s))
            && encode_utf8(s@) == u),
{
    let bytes = text.as_bytes();
    proof {
        encode_utf8_valid_utf8(text@);
    }
    match canonical_text(bytes) {
        None => Ok(None),
        Some(out) => {
            proof {
                lemma_canonical_valid(bytes@);
            }
            match utf8_text(out.as_slice()) {
                Some(s) => Ok(Some(s.to_owned())),
                None => Err(DecodeError),
            }
        },
    }
}

} // verus!
