use vstd::prelude::*;

verus! {

/// Only this many leading bytes of a text are ever scanned for a directive.
pub const SCAN_LIMIT: usize = 1024;

/// A space or a tab: the bytes that separate words on a directive line.
pub open spec fn is_blank(b: u8) -> bool {
    b == 0x20u8 || b == 0x09u8
}

/// A carriage return or a line feed: the bytes that end a line.
pub open spec fn is_line_break(b: u8) -> bool {
    b == 0x0du8 || b == 0x0au8
}

/// The length of the scanned prefix of `t`.
pub open spec fn scan_len(t: Seq<u8>) -> int {
    if t.len() <= SCAN_LIMIT {
        t.len() as int
    } else {
        SCAN_LIMIT as int
    }
}

/// The first position at or after `i` (and before `e`) that holds no blank, or `e`.
pub open spec fn blanks_end(t: Seq<u8>, i: int, e: int) -> int
    decreases e - i,
{
    if i >= e {
        i
    } else if is_blank(t[i]) {
        blanks_end(t, i + 1, e)
    } else {
        i
    }
}

/// The first position at or after `i` (and before `e`) that holds a blank, or `e`.
pub open spec fn word_end(t: Seq<u8>, i: int, e: int) -> int
    decreases e - i,
{
    if i >= e {
        i
    } else if !is_blank(t[i]) {
        word_end(t, i + 1, e)
    } else {
        i
    }
}

/// The first position at or after `i` (and before `e`) that holds a line break, or `e`.
pub open spec fn break_at(t: Seq<u8>, i: int, e: int) -> int
    decreases e - i,
{
    if i >= e {
        i
    } else if !is_line_break(t[i]) {
        break_at(t, i + 1, e)
    } else {
        i
    }
}

/// The text starts with the two-byte marker `#!`.
pub open spec fn has_marker(t: Seq<u8>) -> bool {
    t.len() >= 2 && t[0] == 0x23u8 && t[1] == 0x21u8
}

/// Where the first line ends: at its first line break within the scanned
/// prefix, or else at the end of that prefix.
pub open spec fn line_end(t: Seq<u8>) -> int {
    break_at(t, 0, scan_len(t))
}

/// Where the interpreter starts: after the marker and the blanks that follow it.
pub open spec fn interp_start(t: Seq<u8>) -> int {
    blanks_end(t, 2, line_end(t))
}

/// Where the interpreter ends: at the first blank after it, or at the line end.
pub open spec fn interp_end(t: Seq<u8>) -> int {
    word_end(t, interp_start(t), line_end(t))
}

/// Where the arguments start, if there are any: after the blanks that follow
/// the interpreter.
pub open spec fn args_start(t: Seq<u8>) -> int {
    blanks_end(t, interp_end(t), line_end(t))
}

/// The text opens with a directive line: the marker, then a non-empty interpreter.
pub open spec fn is_directive(t: Seq<u8>) -> bool {
    has_marker(t) && interp_start(t) < line_end(t)
}

/// Something other than blanks follows the interpreter on the directive line.
pub open spec fn has_args(t: Seq<u8>) -> bool {
    args_start(t) < line_end(t)
}

/// A parsed directive line, as offsets into the text it was read from.
pub struct Directive {
    /// First byte of the interpreter.
    pub interpreter_start: usize,
    /// One past the last byte of the interpreter.
    pub interpreter_end: usize,
    /// First byte of the arguments, when the line has any.
    pub arguments_start: Option<usize>,
    /// Where the line terminator (or the end of the scanned prefix) begins.
    pub line_end: usize,
}

impl Directive {
    /// The offsets are ordered and lie within a text of `len` bytes.
    pub open spec fn fits(self, len: nat) -> bool {
        &&& self.interpreter_start <= self.interpreter_end
        &&& self.interpreter_end <= self.line_end
        &&& self.line_end <= len
        &&& (self.arguments_start matches Some(a) ==> self.interpreter_end <= a <= self.line_end)
    }

    /// The interpreter's bytes.
    pub open spec fn interpreter(self, t: Seq<u8>) -> Seq<u8> {
        t.subrange(self.interpreter_start as int, self.interpreter_end as int)
    }

    /// The canonical directive line: the marker, the interpreter and, when
    /// there are arguments, one space and the arguments as they stand.
    pub open spec fn canonical_line(self, t: Seq<u8>) -> Seq<u8> {
        let head = seq![0x23u8, 0x21u8] + self.interpreter(t);
        match self.arguments_start {
            Some(a) => head + seq![0x20u8] + t.subrange(a as int, self.line_end as int),
            None => head,
        }
    }

    /// The text with its directive line replaced by the canonical one.
    pub open spec fn rendered(self, t: Seq<u8>) -> Seq<u8> {
        self.canonical_line(t) + t.subrange(self.line_end as int, t.len() as int)
    }
}

/// The directive that `t` opens with, if any.
pub open spec fn parse(t: Seq<u8>) -> Option<Directive> {
    if is_directive(t) {
        Some(
            Directive {
                interpreter_start: interp_start(t) as usize,
                interpreter_end: interp_end(t) as usize,
                arguments_start: if has_args(t) {
                    Some(args_start(t) as usize)
                } else {
                    None
                },
                line_end: line_end(t) as usize,
            },
        )
    }
    else {
        None
    }
}

/// The text with its directive line in canonical form, or `None` when it
/// opens with no directive.
pub open spec fn shebang_line(t: Seq<u8>) -> Option<Seq<u8>> {
    match parse(t) {
        Some(d) => Some(d.rendered(t)),
        None => None,
    }
}

/// The replacement text, or `None` when nothing is to change: the text opens
/// with no directive, or its directive is already canonical.
pub open spec fn normalized(t: Seq<u8>) -> Option<Seq<u8>> {
    match shebang_line(t) {
        Some(u) => if u == t {
            None
        } else {
            Some(u)
        },
        None => None,
    }
}

/// Tells whether `b` is a space or a tab.
pub fn blank(b: u8) -> (r: bool)
    ensures
        r == is_blank(b),
{
    b == 0x20u8 || b == 0x09u8
}

/// Tells whether `b` is a carriage return or a line feed.
pub fn line_break(b: u8) -> (r: bool)
    ensures
        r == is_line_break(b),
{
    b == 0x0du8 || b == 0x0au8
}

/// Moves past the blanks of `t` from `i` on, stopping at `e`.
fn skip_blanks(t: &[u8], i: usize, e: usize) -> (r: usize)
    requires
        i <= e <= t@.len(),
    ensures
        r == blanks_end(t@, i as int, e as int),
{
    let mut j: usize = i;
    while j < e && blank(t[j])
        invariant
            i <= j <= e,
            e <= t@.len(),
            blanks_end(t@, i as int, e as int) == blanks_end(t@, j as int, e as int),
        decreases e - j,
    {
        j = j + 1;
    }
    j
}

/// Moves past the non-blank bytes of `t` from `i` on, stopping at `e`.
fn skip_word(t: &[u8], i: usize, e: usize) -> (r: usize)
    requires
        i <= e <= t@.len(),
    ensures
        r == word_end(t@, i as int, e as int),
{
    let mut j: usize = i;
    while j < e && !blank(t[j])
        invariant
            i <= j <= e,
            e <= t@.len(),
            word_end(t@, i as int, e as int) == word_end(t@, j as int, e as int),
        decreases e - j,
    {
        j = j + 1;
    }
    j
}

/// Finds the first line break of `t` from `i` on, stopping at `e`.
fn find_break(t: &[u8], i: usize, e: usize) -> (r: usize)
    requires
        i <= e <= t@.len(),
    ensures
        r == break_at(t@, i as int, e as int),
{
    let mut j: usize = i;
    while j < e && !line_break(t[j])
        invariant
            i <= j <= e,
            e <= t@.len(),
            break_at(t@, i as int, e as int) == break_at(t@, j as int, e as int),
        decreases e - j,
    {
        j = j + 1;
    }
    j
}

pub(crate) proof fn lemma_blanks_end_props(t: Seq<u8>, i: int, e: int)
    requires
        0 <= i <= e <= t.len(),
    ensures
        i <= blanks_end(t, i, e) <= e,
        forall|k: int| i <= k < blanks_end(t, i, e) ==> is_blank(#[trigger] t[k]),
        blanks_end(t, i, e) == e || !is_blank(t[blanks_end(t, i, e)]),
    decreases e - i,
{
    if i < e && is_blank(t[i]) {
        lemma_blanks_end_props(t, i + 1, e);
    }
}

pub(crate) proof fn lemma_word_end_props(t: Seq<u8>, i: int, e: int)
    requires
        0 <= i <= e <= t.len(),
    ensures
        i <= word_end(t, i, e) <= e,
        forall|k: int| i <= k < word_end(t, i, e) ==> !is_blank(#[trigger] t[k]),
        word_end(t, i, e) == e || is_blank(t[word_end(t, i, e)]),
    decreases e - i,
{
    if i < e && !is_blank(t[i]) {
        lemma_word_end_props(t, i + 1, e);
    }
}

pub(crate) proof fn lemma_break_at_props(t: Seq<u8>, i: int, e: int)
    requires
        0 <= i <= e <= t.len(),
    ensures
        i <= break_at(t, i, e) <= e,
        forall|k: int| i <= k < break_at(t, i, e) ==> !is_line_break(#[trigger] t[k]),
        break_at(t, i, e) == e || is_line_break(t[break_at(t, i, e)]),
    decreases e - i,
{
    if i < e && !is_line_break(t[i]) {
        lemma_break_at_props(t, i + 1, e);
    }
}

/// The offsets that locate the directive are ordered and lie in the scanned prefix.
pub proof fn lemma_offsets_ordered(t: Seq<u8>)
    requires
        has_marker(t),
    ensures
        2 <= interp_start(t) <= interp_end(t) <= args_start(t) <= line_end(t) <= scan_len(t),
        scan_len(t) <= t.len(),
{
    lemma_break_at_props(t, 0, scan_len(t));
    assert(t[0] == 0x23u8 && t[1] == 0x21u8);
    assert(line_end(t) >= 2) by {
        // neither byte of the marker ends the line
        assert(break_at(t, 0, scan_len(t)) == break_at(t, 1, scan_len(t)));
        assert(break_at(t, 1, scan_len(t)) == break_at(t, 2, scan_len(t)));
        lemma_break_at_props(t, 2, scan_len(t));
    }
    lemma_blanks_end_props(t, 2, line_end(t));
    lemma_word_end_props(t, interp_start(t), line_end(t));
    lemma_blanks_end_props(t, interp_end(t), line_end(t));
}

/// Reads the directive that `text` opens with, if any.
pub fn parse_directive(text: &[u8]) -> (r: Option<Directive>)
    ensures
        r == parse(text@),
{
    if text.len() < 2 || text[0] != 0x23u8 || text[1] != 0x21u8 {
        return None;
    }
    let scan: usize = if text.len() <= SCAN_LIMIT {
        text.len()
    } else {
        SCAN_LIMIT
    };
    proof {
        lemma_offsets_ordered(text@);
    }
    let end = find_break(text, 0, scan);
    let start = skip_blanks(text, 2, end);
    if start >= end {
        return None;
    }
    let word = skip_word(text, start, end);
    let args = skip_blanks(text, word, end);
    let arguments_start = if args < end {
        Some(args)
    } else {
        None
    };
    Some(
        Directive {
            interpreter_start: start,
            interpreter_end: word,
            arguments_start,
            line_end: end,
        },
    )
}

/// Appends `t[from..to]` to `out`.
fn append_range(out: &mut Vec<u8>, t: &[u8], from: usize, to: usize)
    requires
        from <= to <= t@.len(),
    ensures
        final(out)@ == old(out)@ + t@.subrange(from as int, to as int),
{
    let ghost start = out@;
    let mut k: usize = from;
    while k < to
        invariant
            from <= k <= to,
            to <= t@.len(),
            out@ == start + t@.subrange(from as int, k as int),
        decreases to - k,
    {
        out.push(t[k]);
        k = k + 1;
        assert(t@.subrange(from as int, k as int) =~= t@.subrange(from as int, k - 1).push(
            t@[k - 1],
        ));
    }
    assert(t@.subrange(from as int, to as int) =~= t@.subrange(from as int, k as int));
}

/// Writes out `text` with the directive `d` in canonical form: the marker, the
/// interpreter, one space and the arguments when there are any, and then
/// everything from the line end on, unchanged.
pub fn render_directive(text: &[u8], d: &Directive) -> (r: Vec<u8>)
    requires
        d.fits(text@.len()),
    ensures
        r@ == d.rendered(text@),
{
    let mut out: Vec<u8> = Vec::new();
    out.push(0x23u8);
    out.push(0x21u8);
    append_range(&mut out, text, d.interpreter_start, d.interpreter_end);
    match d.arguments_start {
        Some(a) => {
            out.push(0x20u8);
            append_range(&mut out, text, a, d.line_end);
        },
        None => {},
    }
    append_range(&mut out, text, d.line_end, text.len());
    proof {
        let t = text@;
        let head = seq![0x23u8, 0x21u8] + d.interpreter(t);
        match d.arguments_start {
            Some(a) => {
                assert(d.canonical_line(t) =~= head + seq![0x20u8] + t.subrange(
                    a as int,
                    d.line_end as int,
                ));
            },
            None => {},
        }
    }
    assert(out@ =~= d.rendered(text@));
    out
}

/// Tells whether two byte strings are equal.
pub fn same_bytes(a: &[u8], b: &[u8]) -> (r: bool)
    ensures
        r == (a@ == b@),
{
    if a.len() != b.len() {
        return false;
    }
    let mut k: usize = 0;
    while k < a.len()
        invariant
            k <= a@.len(),
            a@.len() == b@.len(),
            forall|j: int| 0 <= j < k ==> a@[j] == b@[j],
        decreases a@.len() - k,
    {
        if a[k] != b[k] {
            return false;
        }
        k = k + 1;
    }
    assert(a@ =~= b@);
    true
}

/// The text with its directive line in canonical form, or `None` when it
/// opens with no directive.
pub fn canonical_text(text: &[u8]) -> (r: Option<Vec<u8>>)
    ensures
        r matches Some(v) ==> shebang_line(text@) == Some(v@),
        r is None ==> shebang_line(text@) is None,
{
    match parse_directive(text) {
        Some(d) => {
            proof {
                lemma_offsets_ordered(text@);
            }
            Some(render_directive(text, &d))
        },
        None => None,
    }
}

/// The replacement for `text`, or `None` when nothing is to change: the text
/// opens with no directive, or its directive line is already canonical.
pub fn normalize(text: &[u8]) -> (r: Option<Vec<u8>>)
    ensures
        r matches Some(v) ==> normalized(text@) == Some(v@),
        r is None ==> normalized(text@) is None,
{
    match canonical_text(text) {
        Some(out) => {
            if same_bytes(out.as_slice(), text) {
                None
            } else {
                Some(out)
            }
        },
        None => None,
    }
}

} // verus!
