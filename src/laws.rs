use vstd::prelude::*;

use crate::directive::{
    args_start, blanks_end, break_at, has_args, has_marker, interp_end, interp_start, is_blank,
    is_directive, is_line_break, lemma_blanks_end_props, lemma_break_at_props,
    lemma_offsets_ordered, lemma_word_end_props, line_end, normalized, parse, scan_len,
    shebang_line, word_end, SCAN_LIMIT,
};

verus! {

proof fn lemma_blanks_end_is(t: Seq<u8>, i: int, e: int, j: int)
    requires
        0 <= i <= j <= e <= t.len(),
        forall|k: int| i <= k < j ==> is_blank(#[trigger] t[k]),
        j == e || !is_blank(t[j]),
    ensures
        blanks_end(t, i, e) == j,
    decreases j - i,
{
    if i < j {
        lemma_blanks_end_is(t, i + 1, e, j);
    }
}

proof fn lemma_word_end_is(t: Seq<u8>, i: int, e: int, j: int)
    requires
        0 <= i <= j <= e <= t.len(),
        forall|k: int| i <= k < j ==> !is_blank(#[trigger] t[k]),
        j == e || is_blank(t[j]),
    ensures
        word_end(t, i, e) == j,
    decreases j - i,
{
    if i < j {
        lemma_word_end_is(t, i + 1, e, j);
    }
}

proof fn lemma_break_at_is(t: Seq<u8>, i: int, e: int, j: int)
    requires
        0 <= i <= j <= e <= t.len(),
        forall|k: int| i <= k < j ==> !is_line_break(#[trigger] t[k]),
        j == e || is_line_break(t[j]),
    ensures
        break_at(t, i, e) == j,
    decreases j - i,
{
    if i < j {
        lemma_break_at_is(t, i + 1, e, j);
    }
}

/// The parsed offsets satisfy the invariants of a directive: the line holds
/// no line break before its end, only blanks stand between the marker and the
/// interpreter, the interpreter is non-empty and holds no blank, and the
/// arguments, when there are any, start with a byte that is not a blank.
pub proof fn lemma_directive_shape(t: Seq<u8>)
    requires
        is_directive(t),
    ensures
        2 <= interp_start(t) < interp_end(t) <= args_start(t) <= line_end(t) <= scan_len(t),
        scan_len(t) <= t.len(),
        forall|k: int| 0 <= k < line_end(t) ==> !is_line_break(#[trigger] t[k]),
        line_end(t) == scan_len(t) || is_line_break(t[line_end(t)]),
        forall|k: int| 2 <= k < interp_start(t) ==> is_blank(#[trigger] t[k]),
        forall|k: int| interp_start(t) <= k < interp_end(t) ==> !is_blank(#[trigger] t[k]),
        forall|k: int| interp_end(t) <= k < args_start(t) ==> is_blank(#[trigger] t[k]),
        has_args(t) ==> !is_blank(t[args_start(t)]) && interp_end(t) < args_start(t),
{
    lemma_offsets_ordered(t);
    lemma_break_at_props(t, 0, scan_len(t));
    lemma_blanks_end_props(t, 2, line_end(t));
    lemma_word_end_props(t, interp_start(t), line_end(t));
    lemma_blanks_end_props(t, interp_end(t), line_end(t));
}

/// A text that does not start with `#!` is never rewritten.
pub proof fn lemma_no_marker_no_change(t: Seq<u8>)
    requires
        !has_marker(t),
    ensures
        normalized(t) is None,
        shebang_line(t) is None,
{
}

/// A rewrite replaces the directive line only: the replacement is the
/// canonical line followed by every byte of the original from its line end
/// on, unchanged.
pub proof fn lemma_rest_unchanged(t: Seq<u8>, u: Seq<u8>)
    requires
        normalized(t) == Some(u),
    ensures
        is_directive(t),
        u.len() >= t.len() - line_end(t),
        u.subrange(u.len() - (t.len() - line_end(t)), u.len() as int) == t.subrange(
            line_end(t),
            t.len() as int,
        ),
        u.subrange(0, u.len() - (t.len() - line_end(t))) == parse(t).unwrap().canonical_line(t),
{
    lemma_directive_shape(t);
    let d = parse(t).unwrap();
    let c = d.canonical_line(t);
    let rest = t.subrange(line_end(t), t.len() as int);
    assert(u == c + rest);
    assert(u.subrange(c.len() as int, u.len() as int) =~= rest);
    assert(u.subrange(0, c.len() as int) =~= c);
}

/// In a rewritten line nothing stands between the marker and the
/// interpreter; the interpreter is followed by exactly one space when
/// arguments follow and by the line terminator when none do; and the
/// arguments, with any blanks inside or after them, are kept byte for byte.
pub proof fn lemma_separators(t: Seq<u8>, u: Seq<u8>)
    requires
        shebang_line(t) == Some(u),
    ensures
        ({
            let n = interp_end(t) - interp_start(t);
            &&& n > 0
            &&& u.subrange(0, 2) == t.subrange(0, 2)
            &&& u.subrange(2, 2 + n) == t.subrange(interp_start(t), interp_end(t))
            &&& !is_blank(u[2])
            &&& has_args(t) ==> {
                &&& u[2 + n] == 0x20u8
                &&& !is_blank(u[3 + n])
                &&& u.subrange(3 + n, 3 + n + line_end(t) - args_start(t)) == t.subrange(
                    args_start(t),
                    line_end(t),
                )
            }
            &&& !has_args(t) ==> u.subrange(2 + n, u.len() as int) == t.subrange(
                line_end(t),
                t.len() as int,
            )
        }),
{
    lemma_directive_shape(t);
    let n = interp_end(t) - interp_start(t);
    let d = parse(t).unwrap();
    let interp = t.subrange(interp_start(t), interp_end(t));
    let rest = t.subrange(line_end(t), t.len() as int);
    assert(u.subrange(0, 2) =~= t.subrange(0, 2));
    assert(u.subrange(2, 2 + n) =~= interp);
    assert(u[2] == t[interp_start(t)]);
    if has_args(t) {
        let args = t.subrange(args_start(t), line_end(t));
        assert(u == seq![0x23u8, 0x21u8] + interp + seq![0x20u8] + args + rest);
        assert(u.subrange(3 + n, 3 + n + line_end(t) - args_start(t)) =~= args);
        assert(u[3 + n] == t[args_start(t)]);
    } else {
        assert(u == seq![0x23u8, 0x21u8] + interp + rest);
        assert(u.subrange(2 + n, u.len() as int) =~= rest);
    }
}

/// A directive line without arguments comes out as the marker, the
/// interpreter and the rest of the text; when its line holds no blanks it is
/// already canonical and is left alone.
pub proof fn lemma_no_args_round_trip(t: Seq<u8>)
    requires
        is_directive(t),
        !has_args(t),
    ensures
        shebang_line(t) == Some(
            seq![0x23u8, 0x21u8] + t.subrange(interp_start(t), interp_end(t)) + t.subrange(
                line_end(t),
                t.len() as int,
            ),
        ),
        (forall|k: int| 2 <= k < line_end(t) ==> !is_blank(#[trigger] t[k])) ==> normalized(
            t,
        ) is None,
{
    lemma_directive_shape(t);
    if forall|k: int| 2 <= k < line_end(t) ==> !is_blank(#[trigger] t[k]) {
        assert(interp_start(t) == 2);
        assert(interp_end(t) == line_end(t));
        let u = shebang_line(t).unwrap();
        assert(u =~= t);
    }
}

/// Rewriting is idempotent: the canonical text is its own canonical form, so
/// normalizing a rewritten text changes nothing. This holds of every directive
/// with arguments, and of one without arguments whose line ends within the
/// scanned prefix or whose text is no longer than that prefix.
pub proof fn lemma_idempotent(t: Seq<u8>, u: Seq<u8>)
    requires
        shebang_line(t) == Some(u),
        has_args(t) || line_end(t) < scan_len(t) || t.len() <= SCAN_LIMIT,
    ensures
        shebang_line(u) == Some(u),
        normalized(u) is None,
{
    lemma_directive_shape(t);
    let is = interp_start(t);
    let ie = interp_end(t);
    let a = args_start(t);
    let le = line_end(t);
    let n = ie - is;
    let interp = t.subrange(is, ie);
    let rest = t.subrange(le, t.len() as int);
    let args = t.subrange(a, le);
    let c = if has_args(t) {
        seq![0x23u8, 0x21u8] + interp + seq![0x20u8] + args
    } else {
        seq![0x23u8, 0x21u8] + interp
    };
    let p = c.len() as int;
    assert(u =~= c + rest);
    assert(p <= le);
    assert(u.len() == p + t.len() - le);
    assert(forall|k: int| 2 <= k < 2 + n ==> u[k] == #[trigger] t[is + k - 2]);
    assert(forall|k: int| p <= k < u.len() ==> u[k] == #[trigger] t[le + k - p]);
    if has_args(t) {
        assert(forall|k: int| 3 + n <= k < p ==> u[k] == #[trigger] t[a + k - 3 - n]);
    }
    // no line break stands in the canonical line

    assert(forall|k: int| 0 <= k < p ==> !is_line_break(#[trigger] u[k])) by {
        assert forall|k: int| 0 <= k < p implies !is_line_break(#[trigger] u[k]) by {
            if 2 <= k < 2 + n {
                assert(u[k] == t[is + k - 2]);
            } else if has_args(t) && 3 + n <= k {
                assert(u[k] == t[a + k - 3 - n]);
            }
        }
    }
    let lu = line_end(u);
    lemma_break_at_props(u, 0, scan_len(u));
    assert(p <= scan_len(u));
    if lu < p {
        assert(is_line_break(u[lu]));
    }
    assert(p <= lu);
    if le < scan_len(t) {
        assert(u[p] == t[le]);
        lemma_break_at_is(u, 0, scan_len(u), p);
        assert(lu == p);
    } else if t.len() <= SCAN_LIMIT {
        assert(u.len() == p);
        lemma_break_at_is(u, 0, scan_len(u), p);
        assert(lu == p);
    }
    assert(has_marker(u));
    lemma_blanks_end_is(u, 2, lu, 2);
    assert(interp_start(u) == 2);
    assert(forall|k: int| 2 <= k < 2 + n ==> !is_blank(#[trigger] u[k])) by {
        assert forall|k: int| 2 <= k < 2 + n implies !is_blank(#[trigger] u[k]) by {
            assert(u[k] == t[is + k - 2]);
        }
    }
    let d = parse(u).unwrap();
    if has_args(t) {
        lemma_word_end_is(u, 2, lu, 2 + n);
        assert(interp_end(u) == 2 + n);
        assert(u[3 + n] == t[a]);
        lemma_blanks_end_is(u, 2 + n, lu, 3 + n);
        assert(args_start(u) == 3 + n);
        assert(u.subrange(2, 2 + n) =~= interp);
        assert(d.rendered(u) =~= u);
    } else {
        assert(lu == p);
        lemma_word_end_is(u, 2, lu, 2 + n);
        assert(interp_end(u) == 2 + n);
        assert(p == 2 + n);
        assert(args_start(u) == p);
        assert(u.subrange(2, 2 + n) =~= interp);
        assert(u.subrange(p, u.len() as int) =~= rest);
        assert(d.rendered(u) =~= u);
    }
}

} // verus!
