//! Whitespace collapsing, literal replacement and line prefix removal.
use vstd::prelude::*;
use vstd::utf8::*;
use vstd::string::StringSliceAdditionalSpecFns;
use crate::chars::{
    boundary, char_complete, char_len, lemma_step, lemma_valid_ascii, lemma_valid_shaped,
    lemma_valid_slice, lemma_ws_width, shaped, whitespace_len, width, ws_width,
};
use crate::trim::{lemma_skip_ws, lemma_skip_ws_bounds, push_range, skip_ws};

verus! {

/// Strength of a whitespace character in a collapsed run, by its first byte:
/// line breaks beat tabs, and tabs beat every other whitespace.
pub open spec fn rank(first: u8) -> int {
    if first == 10u8 || first == 13u8 {
        2
    } else if first == 9u8 {
        1
    } else {
        0
    }
}

/// Strongest rank in the whitespace run that starts at `i`.
pub open spec fn run_rank(b: Seq<u8>, i: int) -> int
    decreases b.len() - i,
{
    if 0 <= i < b.len() && ws_width(b, i) > 0 && i + ws_width(b, i) <= b.len() {
        let r = run_rank(b, i + ws_width(b, i));
        if rank(b[i]) > r {
            rank(b[i])
        } else {
            r
        }
    } else {
        0
    }
}

/// The single character that stands for a run of the given rank.
pub open spec fn rank_byte(r: int) -> u8 {
    if r == 2 {
        10u8
    } else if r == 1 {
        9u8
    } else {
        32u8
    }
}

/// What replaces the whitespace run at `i`: the given text, or one
/// character chosen by the strongest whitespace of the run.
pub open spec fn run_text(b: Seq<u8>, i: int, replacement: Option<Seq<u8>>) -> Seq<u8> {
    match replacement {
        Some(t) => t,
        None => seq![rank_byte(run_rank(b, i))],
    }
}

/// The text from `i` on with each whitespace run replaced.
pub open spec fn collapse_from(b: Seq<u8>, i: int, replacement: Option<Seq<u8>>) -> Seq<u8>
    decreases b.len() - i,
{
    if 0 <= i < b.len() {
        if ws_width(b, i) > 0 && i + ws_width(b, i) <= b.len() {
            let j = skip_ws(b, i, b.len() as int);
            proof {
                lemma_skip_ws_bounds(b, i, b.len() as int);
            }
            run_text(b, i, replacement) + collapse_from(b, j, replacement)
        } else if i + width(b[i]) <= b.len() {
            b.subrange(i, i + width(b[i])) + collapse_from(b, i + width(b[i]), replacement)
        } else {
            b.subrange(i, b.len() as int)
        }
    } else {
        Seq::empty()
    }
}

/// The text with every maximal whitespace run replaced.
pub open spec fn collapsed(b: Seq<u8>, replacement: Option<Seq<u8>>) -> Seq<u8> {
    collapse_from(b, 0, replacement)
}

/// The bytes of an optional replacement text.
pub open spec fn replacement_bytes(replacement: Option<&str>) -> Option<Seq<u8>> {
    match replacement {
        Some(t) => Some(t.spec_bytes()),
        None => None,
    }
}

proof fn lemma_collapse_from_utf8(b: Seq<u8>, i: int, replacement: Option<Seq<u8>>)
    requires
        valid_utf8(b),
        shaped(b),
        boundary(b, i),
        replacement matches Some(t) ==> valid_utf8(t),
    ensures
        valid_utf8(collapse_from(b, i, replacement)),
    decreases b.len() - i,
{
    if i < b.len() {
        lemma_step(b, i);
        lemma_ws_width(b, i);
        if ws_width(b, i) > 0 {
            let j = skip_ws(b, i, b.len() as int);
            lemma_skip_ws(b, i, b.len() as int);
            lemma_skip_ws_bounds(b, i, b.len() as int);
            lemma_collapse_from_utf8(b, j, replacement);
            if replacement is None {
                lemma_valid_ascii(run_text(b, i, replacement));
            }
            valid_utf8_concat(run_text(b, i, replacement), collapse_from(b, j, replacement));
        } else {
            let w = width(b[i]);
            lemma_valid_slice(b, i, i + w);
            lemma_collapse_from_utf8(b, i + w, replacement);
            valid_utf8_concat(b.subrange(i, i + w), collapse_from(b, i + w, replacement));
        }
    } else {
        lemma_valid_ascii(Seq::<u8>::empty());
    }
}

/// Collapsing the whitespace runs of valid UTF-8, with no replacement text or
/// with a valid UTF-8 one, gives valid UTF-8.
pub proof fn lemma_collapsed_utf8(b: Seq<u8>, replacement: Option<Seq<u8>>)
    requires
        valid_utf8(b),
        replacement matches Some(t) ==> valid_utf8(t),
    ensures
        valid_utf8(collapsed(b, replacement)),
{
    lemma_valid_shaped(b);
    lemma_collapse_from_utf8(b, 0, replacement);
}

fn scan_collapse_whitespace(input: &str, replacement: Option<&str>) -> (r: Vec<u8>)
    ensures
        r@ == collapsed(input.spec_bytes(), replacement_bytes(replacement)),
{
    let bytes = input.as_bytes();
    let ghost b = bytes@;
    let ghost rb = replacement_bytes(replacement);
    proof {
        encode_utf8_valid_utf8(input@);
        lemma_valid_shaped(b);
    }
    let mut output: Vec<u8> = Vec::new();
    let mut i: usize = 0;
    while i < bytes.len()
        invariant
            b == bytes@,
            rb == replacement_bytes(replacement),
            shaped(b),
            boundary(b, i as int),
            collapsed(b, rb) == output@ + collapse_from(b, i as int, rb),
        decreases b.len() - i,
    {
        proof {
            lemma_step(b, i as int);
            lemma_ws_width(b, i as int);
        }
        if whitespace_len(bytes, i) > 0 {
            let ghost i0 = i as int;
            let mut strongest: u8 = 0;
            proof {
                lemma_skip_ws(b, i0, b.len() as int);
            }
            loop
                invariant
                    b == bytes@,
                    shaped(b),
                    boundary(b, i as int),
                    i0 <= i <= b.len(),
                    skip_ws(b, i0, b.len() as int) == skip_ws(b, i as int, b.len() as int),
                    strongest <= 2,
                    run_rank(b, i0) == (if strongest > run_rank(b, i as int) {
                        strongest as int
                    } else {
                        run_rank(b, i as int)
                    }),
                ensures
                    i == skip_ws(b, i0, b.len() as int),
                    boundary(b, i as int),
                    strongest == run_rank(b, i0),
                decreases b.len() - i,
            {
                if i >= bytes.len() {
                    break;
                }
                proof {
                    lemma_step(b, i as int);
                    lemma_ws_width(b, i as int);
                }
                let len = whitespace_len(bytes, i);
                if len == 0 {
                    break;
                }
                let rank: u8 = if bytes[i] == 10u8 || bytes[i] == 13u8 {
                    2
                } else if bytes[i] == 9u8 {
                    1
                } else {
                    0
                };
                if rank > strongest {
                    strongest = rank;
                }
                i += len;
            }
            match replacement {
                Some(text) => {
                    let t = text.as_bytes();
                    push_range(&mut output, t, 0, t.len());
                    assert(t@.subrange(0, t@.len() as int) =~= t@);
                },
                None => {
                    let byte: u8 = if strongest == 2 {
                        10u8
                    } else if strongest == 1 {
                        9u8
                    } else {
                        32u8
                    };
                    output.push(byte);
                },
            }
            assert(collapsed(b, rb) =~= output@ + collapse_from(b, i as int, rb));
        } else {
            let end = i + char_len(bytes[i]);
            push_range(&mut output, bytes, i, end);
            i = end;
            assert(collapsed(b, rb) =~= output@ + collapse_from(b, i as int, rb));
        }
    }
    assert(collapse_from(b, i as int, rb) =~= Seq::empty());
    output
}

/// Length of the text with each whitespace run collapsed to one character.
pub fn collapse_whitespace_len(input: &str) -> (r: usize)
    ensures
        r == collapsed(input.spec_bytes(), None).len(),
{
    scan_collapse_whitespace(input, None).len()
}

/// The text with each whitespace run collapsed to one character: LF when the
/// run holds CR or LF, otherwise a tab when it holds a tab, otherwise a space.
pub fn collapse_whitespace(input: &str) -> (r: Vec<u8>)
    ensures
        r@ == collapsed(input.spec_bytes(), None),
        valid_utf8(r@),
{
    proof {
        encode_utf8_valid_utf8(input@);
        lemma_collapsed_utf8(input.spec_bytes(), None);
    }
    scan_collapse_whitespace(input, None)
}

/// The text with each whitespace run replaced by one ASCII space.
pub fn collapse_whitespace_as_space(input: &str) -> (r: Vec<u8>)
    ensures
        r@ == collapsed(input.spec_bytes(), Some(seq![32u8])),
        valid_utf8(r@),
{
    let r = collapse_whitespace_with(input, " ");
    proof {
        reveal_strlit(" ");
        assert(" "@ =~= seq![' ']);
        assert((32u32 & 0x7f) as u8 == 32u8) by (bit_vector);
        assert(encode_utf8(" "@.drop_first()) =~= Seq::<u8>::empty());
        assert(" ".spec_bytes() =~= seq![32u8]);
    }
    r
}

/// Length of the text with each whitespace run replaced by `replacement`.
pub fn collapse_whitespace_with_len(input: &str, replacement: &str) -> (r: usize)
    ensures
        r == collapsed(input.spec_bytes(), Some(replacement.spec_bytes())).len(),
{
    scan_collapse_whitespace(input, Some(replacement)).len()
}

/// The text with each whitespace run replaced by `replacement`, which is
/// inserted once per run and not processed again.
pub fn collapse_whitespace_with(input: &str, replacement: &str) -> (r: Vec<u8>)
    ensures
        r@ == collapsed(input.spec_bytes(), Some(replacement.spec_bytes())),
        valid_utf8(r@),
{
    proof {
        encode_utf8_valid_utf8(input@);
        encode_utf8_valid_utf8(replacement@);
        lemma_collapsed_utf8(input.spec_bytes(), Some(replacement.spec_bytes()));
    }
    scan_collapse_whitespace(input, Some(replacement))
}

/// `pattern` occurs in `b` at byte `at`.
pub open spec fn matches_at(b: Seq<u8>, at: int, pattern: Seq<u8>) -> bool {
    &&& 0 <= at <= b.len()
    &&& pattern.len() <= b.len() - at
    &&& b.subrange(at, at + pattern.len()) == pattern
}

/// The text from `i` on with every non-overlapping occurrence of `from`
/// replaced by `to`, left to right; an empty `from` matches at every
/// character boundary, the end included.
pub open spec fn replace_from(b: Seq<u8>, i: int, from: Seq<u8>, to: Seq<u8>) -> Seq<u8>
    decreases b.len() - i,
{
    if 0 <= i <= b.len() {
        if matches_at(b, i, from) && from.len() > 0 {
            to + replace_from(b, i + from.len(), from, to)
        } else {
            let head = if matches_at(b, i, from) {
                to
            } else {
                Seq::empty()
            };
            if i < b.len() && i + width(b[i]) <= b.len() {
                head + b.subrange(i, i + width(b[i])) + replace_from(b, i + width(b[i]), from, to)
            } else {
                head
            }
        }
    } else {
        Seq::empty()
    }
}

/// The text with every non-overlapping occurrence of `from` replaced by `to`.
pub open spec fn replaced(b: Seq<u8>, from: Seq<u8>, to: Seq<u8>) -> Seq<u8> {
    replace_from(b, 0, from, to)
}

proof fn lemma_last_char(f: Seq<u8>, j: int)
    requires
        shaped(f),
        0 <= j < f.len(),
        forall|t: int| j < t < f.len() ==> is_continuation_byte(#[trigger] f[t]),
    ensures
        exists|k: int| 0 <= k < f.len() && boundary(f, k) && k + width(f[k]) == f.len(),
    decreases j,
{
    if !is_continuation_byte(f[j]) {
        assert(char_complete(f, j));
        assert(boundary(f, j) && j + width(f[j]) == f.len());
    } else {
        lemma_last_char(f, j - 1);
    }
}

/// A match of a whole UTF-8 text ends at a character boundary.
pub proof fn lemma_match_end(b: Seq<u8>, i: int, f: Seq<u8>)
    requires
        shaped(b),
        shaped(f),
        boundary(b, i),
        f.len() > 0,
        matches_at(b, i, f),
    ensures
        boundary(b, i + f.len()),
{
    lemma_last_char(f, f.len() - 1);
    let k = choose|k: int| 0 <= k < f.len() && boundary(f, k) && k + width(f[k]) == f.len();
    assert(b[i + k] == f[k]);
    assert(char_complete(b, i + k));
}

proof fn lemma_replace_from_utf8(b: Seq<u8>, i: int, from: Seq<u8>, to: Seq<u8>)
    requires
        valid_utf8(b),
        shaped(b),
        shaped(from),
        valid_utf8(to),
        boundary(b, i),
    ensures
        valid_utf8(replace_from(b, i, from, to)),
    decreases b.len() - i,
{
    lemma_valid_ascii(Seq::<u8>::empty());
    if matches_at(b, i, from) && from.len() > 0 {
        lemma_match_end(b, i, from);
        lemma_replace_from_utf8(b, i + from.len(), from, to);
        valid_utf8_concat(to, replace_from(b, i + from.len(), from, to));
    } else {
        let head = if matches_at(b, i, from) {
            to
        } else {
            Seq::<u8>::empty()
        };
        if i < b.len() {
            lemma_step(b, i);
            let w = width(b[i]);
            lemma_valid_slice(b, i, i + w);
            lemma_replace_from_utf8(b, i + w, from, to);
            valid_utf8_concat(head, b.subrange(i, i + w));
            valid_utf8_concat(head + b.subrange(i, i + w), replace_from(b, i + w, from, to));
        }
    }
}

/// Replacing in valid UTF-8, with a valid UTF-8 search text and replacement,
/// gives valid UTF-8.
pub proof fn lemma_replaced_utf8(b: Seq<u8>, from: Seq<u8>, to: Seq<u8>)
    requires
        valid_utf8(b),
        valid_utf8(from),
        valid_utf8(to),
    ensures
        valid_utf8(replaced(b, from, to)),
{
    lemma_valid_shaped(b);
    lemma_valid_shaped(from);
    lemma_replace_from_utf8(b, 0, from, to);
}

fn matches_at_exec(input: &[u8], at: usize, pattern: &[u8]) -> (r: bool)
    requires
        at <= input@.len(),
    ensures
        r == matches_at(input@, at as int, pattern@),
{
    if pattern.len() > input.len() - at {
        return false;
    }
    let mut i: usize = 0;
    while i < pattern.len()
        invariant
            input.len() == input@.len(),
            at + pattern@.len() <= input@.len(),
            i <= pattern@.len(),
            forall|k: int| 0 <= k < i ==> input@[at + k] == pattern@[k],
        decreases pattern@.len() - i,
    {
        if input[at + i] != pattern[i] {
            assert(input@.subrange(at as int, at + pattern@.len())[i as int] != pattern@[i as int]);
            return false;
        }
        i += 1;
    }
    assert(input@.subrange(at as int, at + pattern@.len()) =~= pattern@);
    true
}

fn scan_replace(input: &str, from: &str, to: &str) -> (r: Vec<u8>)
    ensures
        r@ == replaced(input.spec_bytes(), from.spec_bytes(), to.spec_bytes()),
{
    let bytes = input.as_bytes();
    let pattern = from.as_bytes();
    let text = to.as_bytes();
    let ghost b = bytes@;
    let ghost f = pattern@;
    let ghost t = text@;
    proof {
        encode_utf8_valid_utf8(input@);
        encode_utf8_valid_utf8(from@);
        lemma_valid_shaped(b);
        lemma_valid_shaped(f);
    }
    let mut output: Vec<u8> = Vec::new();
    let mut i: usize = 0;
    loop
        invariant_except_break
            replaced(b, f, t) == output@ + replace_from(b, i as int, f, t),
        invariant
            b == bytes@,
            f == pattern@,
            t == text@,
            shaped(b),
            shaped(f),
            boundary(b, i as int),
            bytes.len() == b.len(),
        ensures
            replaced(b, f, t) == output@,
        decreases b.len() - i,
    {
        let matched = matches_at_exec(bytes, i, pattern);
        if matched {
            push_range(&mut output, text, 0, text.len());
            assert(text@.subrange(0, text@.len() as int) =~= text@);
            if pattern.len() != 0 {
                proof {
                    lemma_match_end(b, i as int, f);
                }
                i += pattern.len();
                assert(replaced(b, f, t) =~= output@ + replace_from(b, i as int, f, t));
                continue;
            }
        }
        if i == bytes.len() {
            assert(replaced(b, f, t) =~= output@);
            break;
        }
        proof {
            lemma_step(b, i as int);
        }
        let end = i + char_len(bytes[i]);
        push_range(&mut output, bytes, i, end);
        i = end;
        assert(replaced(b, f, t) =~= output@ + replace_from(b, i as int, f, t));
    }
    output
}

/// Length of the text after replacing `from` with `to`.
pub fn replace_len(input: &str, from: &str, to: &str) -> (r: usize)
    ensures
        r == replaced(input.spec_bytes(), from.spec_bytes(), to.spec_bytes()).len(),
{
    scan_replace(input, from, to).len()
}

/// Replaces every non-overlapping occurrence of `from` with `to`, left to
/// right, without searching the inserted text again.
pub fn replace(input: &str, from: &str, to: &str) -> (r: Vec<u8>)
    ensures
        r@ == replaced(input.spec_bytes(), from.spec_bytes(), to.spec_bytes()),
        valid_utf8(r@),
{
    proof {
        encode_utf8_valid_utf8(input@);
        encode_utf8_valid_utf8(from@);
        encode_utf8_valid_utf8(to@);
        lemma_replaced_utf8(input.spec_bytes(), from.spec_bytes(), to.spec_bytes());
    }
    scan_replace(input, from, to)
}

/// Why a line prefix or suffix is refused.
#[derive(Debug, Clone, Copy, PartialEq, Eq)]
pub enum LineAffixError {
    /// The prefix or suffix holds a CR or LF, so it could span lines.
    LineEnding,
}

/// The words that describe a refused line prefix or suffix.
pub open spec fn affix_error_text(e: LineAffixError) -> Seq<char> {
    "must not contain a line ending"@
}

impl LineAffixError {
    /// What went wrong, in words.
    pub fn message(&self) -> (r: String)
        ensures
            r@ == affix_error_text(*self),
    {
        "must not contain a line ending".to_owned()
    }
}

/// `p` holds a CR or an LF byte.
pub open spec fn has_line_break(p: Seq<u8>) -> bool {
    exists|k: int| 0 <= k < p.len() && (p[k] == 13u8 || p[k] == 10u8)
}

/// The text from `i` on with `prefix` removed once from the start of each
/// line; `line_start` tells whether `i` starts a line.
pub open spec fn strip_prefix_from(b: Seq<u8>, i: int, line_start: bool, prefix: Seq<u8>) -> Seq<
    u8,
>
    decreases b.len() - i,
{
    if 0 <= i < b.len() {
        let j = if line_start && matches_at(b, i, prefix) {
            i + prefix.len()
        } else {
            i
        };
        if j >= b.len() {
            Seq::empty()
        } else {
            seq![b[j]] + strip_prefix_from(b, j + 1, b[j] == 10u8, prefix)
        }
    } else {
        Seq::empty()
    }
}

/// The text with `prefix` removed once from the start of each line.
pub open spec fn prefix_stripped(b: Seq<u8>, prefix: Seq<u8>) -> Seq<u8> {
    strip_prefix_from(b, 0, true, prefix)
}

/// Finds a CR or LF in `pattern`.
pub fn check_no_line_break(pattern: &[u8]) -> (r: Result<(), LineAffixError>)
    ensures
        r is Ok <==> !has_line_break(pattern@),
{
    let mut j: usize = 0;
    while j < pattern.len()
        invariant
            j <= pattern@.len(),
            forall|k: int| 0 <= k < j ==> pattern@[k] != 13u8 && pattern@[k] != 10u8,
        decreases pattern@.len() - j,
    {
        if pattern[j] == 13u8 || pattern[j] == 10u8 {
            return Err(LineAffixError::LineEnding);
        }
        j += 1;
    }
    Ok(())
}

/// Inside a line, prefix removal copies the bytes one by one.
pub proof fn lemma_strip_prefix_copy(b: Seq<u8>, x: int, y: int, prefix: Seq<u8>)
    requires
        0 <= x <= y <= b.len(),
        forall|k: int| x <= k < y ==> b[k] != 10u8,
    ensures
        strip_prefix_from(b, x, false, prefix) == b.subrange(x, y) + strip_prefix_from(
            b,
            y,
            false,
            prefix,
        ),
    decreases y - x,
{
    if x < y {
        lemma_strip_prefix_copy(b, x + 1, y, prefix);
        assert(b.subrange(x, y) =~= seq![b[x]] + b.subrange(x + 1, y));
    } else {
        assert(b.subrange(x, y) =~= Seq::<u8>::empty());
    }
}

proof fn lemma_strip_prefix_from_utf8(b: Seq<u8>, i: int, line_start: bool, prefix: Seq<u8>)
    requires
        valid_utf8(b),
        shaped(b),
        shaped(prefix),
        boundary(b, i),
    ensures
        valid_utf8(strip_prefix_from(b, i, line_start, prefix)),
    decreases b.len() - i,
{
    lemma_valid_ascii(Seq::<u8>::empty());
    if i < b.len() {
        let j = if line_start && matches_at(b, i, prefix) {
            i + prefix.len()
        } else {
            i
        };
        if line_start && matches_at(b, i, prefix) && prefix.len() > 0 {
            lemma_match_end(b, i, prefix);
        }
        if j < b.len() {
            lemma_step(b, j);
            let w = width(b[j]);
            if b[j] == 10u8 {
                lemma_valid_ascii(seq![b[j]]);
                lemma_strip_prefix_from_utf8(b, j + 1, true, prefix);
                valid_utf8_concat(seq![b[j]], strip_prefix_from(b, j + 1, true, prefix));
            } else {
                assert forall|k: int| j + 1 <= k < j + w implies b[k] != 10u8 by {
                    assert(is_continuation_byte(b[k]));
                }
                lemma_strip_prefix_copy(b, j + 1, j + w, prefix);
                let rest = strip_prefix_from(b, j + w, false, prefix);
                assert(strip_prefix_from(b, i, line_start, prefix) == seq![b[j]]
                    + strip_prefix_from(b, j + 1, false, prefix));
                assert(seq![b[j]] + (b.subrange(j + 1, j + w) + rest) =~= b.subrange(j, j + w)
                    + rest);
                lemma_valid_slice(b, j, j + w);
                lemma_strip_prefix_from_utf8(b, j + w, false, prefix);
                valid_utf8_concat(b.subrange(j, j + w), rest);
            }
        }
    }
}

/// Removing a valid UTF-8 prefix from the lines of valid UTF-8 gives valid
/// UTF-8.
pub proof fn lemma_prefix_stripped_utf8(b: Seq<u8>, prefix: Seq<u8>)
    requires
        valid_utf8(b),
        valid_utf8(prefix),
    ensures
        valid_utf8(prefix_stripped(b, prefix)),
{
    lemma_valid_shaped(b);
    lemma_valid_shaped(prefix);
    lemma_strip_prefix_from_utf8(b, 0, true, prefix);
}

fn scan_strip_prefix(input: &str, prefix: &str) -> (r: Result<Vec<u8>, LineAffixError>)
    ensures
        match r {
            Ok(out) => !has_line_break(prefix.spec_bytes()) && out@ == prefix_stripped(
                input.spec_bytes(),
                prefix.spec_bytes(),
            ),
            Err(e) => has_line_break(prefix.spec_bytes()) && e == LineAffixError::LineEnding,
        },
{
    let bytes = input.as_bytes();
    let pattern = prefix.as_bytes();
    let ghost b = bytes@;
    let ghost p = pattern@;
    check_no_line_break(pattern)?;
    let mut output: Vec<u8> = Vec::new();
    let mut i: usize = 0;
    let mut line_start = true;
    while i < bytes.len()
        invariant_except_break
            prefix_stripped(b, p) == output@ + strip_prefix_from(b, i as int, line_start, p),
        invariant
            b == bytes@,
            p == pattern@,
            bytes.len() == b.len(),
            i <= b.len(),
        ensures
            prefix_stripped(b, p) == output@,
        decreases b.len() - i,
    {
        if line_start && matches_at_exec(bytes, i, pattern) {
            i += pattern.len();
        }
        if i == bytes.len() {
            break;
        }
        line_start = bytes[i] == 10u8;
        output.push(bytes[i]);
        i += 1;
        assert(prefix_stripped(b, p) =~= output@ + strip_prefix_from(b, i as int, line_start, p));
    }
    Ok(output)
}

/// Length of the text with `prefix` removed from each line.
pub fn strip_prefix_len(input: &str, prefix: &str) -> (r: Result<usize, LineAffixError>)
    ensures
        match r {
            Ok(n) => !has_line_break(prefix.spec_bytes()) && n == prefix_stripped(
                input.spec_bytes(),
                prefix.spec_bytes(),
            ).len(),
            Err(e) => has_line_break(prefix.spec_bytes()) && e == LineAffixError::LineEnding,
        },
{
    let out = scan_strip_prefix(input, prefix)?;
    Ok(out.len())
}

/// Removes one occurrence of `prefix` from the first byte of each line,
/// keeping LF and CRLF endings; a lone CR does not start a line. A prefix
/// that holds CR or LF is refused.
pub fn strip_prefix(input: &str, prefix: &str) -> (r: Result<Vec<u8>, LineAffixError>)
    ensures
        match r {
            Ok(out) => !has_line_break(prefix.spec_bytes()) && out@ == prefix_stripped(
                input.spec_bytes(),
                prefix.spec_bytes(),
            ) && valid_utf8(out@),
            Err(e) => has_line_break(prefix.spec_bytes()) && e == LineAffixError::LineEnding,
        },
{
    proof {
        encode_utf8_valid_utf8(input@);
        encode_utf8_valid_utf8(prefix@);
        lemma_prefix_stripped_utf8(input.spec_bytes(), prefix.spec_bytes());
    }
    scan_strip_prefix(input, prefix)
}

} // verus!
