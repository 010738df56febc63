//! Line-oriented operations: suffix removal, empty line removal and
//! splitting into lines. A line ends at LF; a CR right before that LF belongs
//! to the ending, any other CR is content.
use vstd::prelude::*;
use vstd::utf8::*;
use vstd::string::StringSliceAdditionalSpecFns;
use crate::chars::{
    boundary, lemma_ascii_boundary, lemma_valid_ascii, lemma_valid_shaped, lemma_valid_slice,
    shaped,
};
use crate::trim::{lemma_line_end, line_end, push_range};
use crate::transforms::{check_no_line_break, has_line_break, LineAffixError};

verus! {

/// End of the content of the line that starts at `i`: the CR of its CRLF,
/// else its LF, else the end of the text.
pub open spec fn content_stop(b: Seq<u8>, i: int) -> int {
    let le = line_end(b, i);
    if le < b.len() && le > i && b[le - 1] == 13u8 {
        le - 1
    } else {
        le
    }
}

/// End of the line that starts at `i`, its ending included.
pub open spec fn line_stop(b: Seq<u8>, i: int) -> int {
    let le = line_end(b, i);
    if le < b.len() {
        le + 1
    } else {
        le
    }
}

/// The content end, the LF and the end of a line come in this order.
pub proof fn lemma_line_parts(b: Seq<u8>, i: int)
    requires
        0 <= i < b.len(),
    ensures
        i <= content_stop(b, i) <= line_end(b, i) <= b.len(),
        i < line_stop(b, i) <= b.len(),
        line_end(b, i) < b.len() ==> line_stop(b, i) == line_end(b, i) + 1,
        line_end(b, i) == b.len() ==> line_stop(b, i) == b.len() && content_stop(b, i) == b.len(),
{
    lemma_line_end(b, i);
}

/// The content of the line starting at `i` ends with `suffix`.
pub open spec fn line_ends_with(b: Seq<u8>, i: int, suffix: Seq<u8>) -> bool {
    &&& suffix.len() <= content_stop(b, i) - i
    &&& b.subrange(content_stop(b, i) - suffix.len(), content_stop(b, i)) == suffix
}

/// The lines from `i` on, each without one trailing `suffix`, with their
/// endings kept.
pub open spec fn strip_suffix_from(b: Seq<u8>, i: int, suffix: Seq<u8>) -> Seq<u8>
    decreases b.len() - i,
{
    if 0 <= i < b.len() {
        let cs = content_stop(b, i);
        let body = if line_ends_with(b, i, suffix) {
            b.subrange(i, cs - suffix.len())
        } else {
            b.subrange(i, cs)
        };
        proof {
            lemma_line_parts(b, i);
        }
        body + b.subrange(cs, line_stop(b, i)) + strip_suffix_from(b, line_stop(b, i), suffix)
    } else {
        Seq::empty()
    }
}

/// The text with `suffix` removed once from the end of each line.
pub open spec fn suffix_stripped(b: Seq<u8>, suffix: Seq<u8>) -> Seq<u8> {
    strip_suffix_from(b, 0, suffix)
}

/// The lines from `i` on, without those whose content is empty.
pub open spec fn nonempty_lines_from(b: Seq<u8>, i: int) -> Seq<u8>
    decreases b.len() - i,
{
    if 0 <= i < b.len() {
        proof {
            lemma_line_parts(b, i);
        }
        let line = if content_stop(b, i) > i {
            b.subrange(i, line_stop(b, i))
        } else {
            Seq::empty()
        };
        line + nonempty_lines_from(b, line_stop(b, i))
    } else {
        Seq::empty()
    }
}

/// The text without its empty lines; other lines keep their endings.
pub open spec fn without_empty_lines(b: Seq<u8>) -> Seq<u8> {
    nonempty_lines_from(b, 0)
}

/// The contents of the lines from `i` on; a final line ending adds no line.
pub open spec fn lines_from(b: Seq<u8>, i: int) -> Seq<Seq<u8>>
    decreases b.len() - i,
{
    if 0 <= i < b.len() {
        proof {
            lemma_line_parts(b, i);
        }
        seq![b.subrange(i, content_stop(b, i))] + lines_from(b, line_stop(b, i))
    } else {
        Seq::empty()
    }
}

/// The contents of the lines of the text, as `str::lines` splits them.
pub open spec fn lines_of(b: Seq<u8>) -> Seq<Seq<u8>> {
    lines_from(b, 0)
}

/// Content end and line end of the line that starts at `i`.
fn line_bounds(bytes: &[u8], i: usize) -> (r: (usize, usize))
    requires
        i < bytes@.len(),
    ensures
        r.0 == content_stop(bytes@, i as int),
        r.1 == line_stop(bytes@, i as int),
{
    let ghost b = bytes@;
    proof {
        lemma_line_end(b, i as int);
    }
    let mut le = i;
    while le < bytes.len() && bytes[le] != 10u8
        invariant
            b == bytes@,
            i <= le <= b.len(),
            line_end(b, le as int) == line_end(b, i as int),
        decreases b.len() - le,
    {
        le += 1;
    }
    let stop = if le < bytes.len() {
        le + 1
    } else {
        le
    };
    if le < bytes.len() && le > i && bytes[le - 1] == 13u8 {
        (le - 1, stop)
    } else {
        (le, stop)
    }
}

fn ends_with_at(bytes: &[u8], start: usize, stop: usize, suffix: &[u8]) -> (r: bool)
    requires
        start <= stop <= bytes@.len(),
    ensures
        r == (suffix@.len() <= stop - start && bytes@.subrange(stop - suffix@.len(), stop as int)
            == suffix@),
{
    if suffix.len() > stop - start {
        return false;
    }
    let at = stop - suffix.len();
    let mut k: usize = 0;
    while k < suffix.len()
        invariant
            at + suffix@.len() == stop <= bytes@.len(),
            k <= suffix@.len(),
            forall|j: int| 0 <= j < k ==> bytes@[at + j] == suffix@[j],
        decreases suffix@.len() - k,
    {
        if bytes[at + k] != suffix[k] {
            assert(bytes@.subrange(at as int, stop as int)[k as int] != suffix@[k as int]);
            return false;
        }
        k += 1;
    }
    assert(bytes@.subrange(at as int, stop as int) =~= suffix@);
    true
}

/// The line that starts at a character boundary `i` has its content end and
/// its end at character boundaries.
proof fn lemma_line_boundaries(b: Seq<u8>, i: int)
    requires
        shaped(b),
        boundary(b, i),
        i < b.len(),
    ensures
        boundary(b, content_stop(b, i)),
        boundary(b, line_stop(b, i)),
{
    lemma_line_parts(b, i);
    lemma_line_end(b, i);
    let le = line_end(b, i);
    if le < b.len() {
        lemma_ascii_boundary(b, le);
    }
}

proof fn lemma_strip_suffix_from_utf8(b: Seq<u8>, i: int, suffix: Seq<u8>)
    requires
        valid_utf8(b),
        shaped(b),
        shaped(suffix),
        boundary(b, i),
    ensures
        valid_utf8(strip_suffix_from(b, i, suffix)),
    decreases b.len() - i,
{
    if i < b.len() {
        lemma_line_parts(b, i);
        lemma_line_boundaries(b, i);
        let cs = content_stop(b, i);
        let ls = line_stop(b, i);
        let cut = if line_ends_with(b, i, suffix) {
            cs - suffix.len()
        } else {
            cs
        };
        if line_ends_with(b, i, suffix) && suffix.len() > 0 {
            assert(b.subrange(cs - suffix.len(), cs)[0] == suffix[0]);
        }
        lemma_valid_slice(b, i, cut);
        lemma_valid_slice(b, cs, ls);
        lemma_strip_suffix_from_utf8(b, ls, suffix);
        valid_utf8_concat(b.subrange(i, cut), b.subrange(cs, ls));
        valid_utf8_concat(b.subrange(i, cut) + b.subrange(cs, ls), strip_suffix_from(b, ls, suffix));
    } else {
        lemma_valid_ascii(Seq::<u8>::empty());
    }
}

/// Removing a valid UTF-8 suffix from the lines of valid UTF-8 gives valid
/// UTF-8.
pub proof fn lemma_suffix_stripped_utf8(b: Seq<u8>, suffix: Seq<u8>)
    requires
        valid_utf8(b),
        valid_utf8(suffix),
    ensures
        valid_utf8(suffix_stripped(b, suffix)),
{
    lemma_valid_shaped(b);
    lemma_valid_shaped(suffix);
    lemma_strip_suffix_from_utf8(b, 0, suffix);
}

proof fn lemma_nonempty_lines_from_utf8(b: Seq<u8>, i: int)
    requires
        valid_utf8(b),
        shaped(b),
        boundary(b, i),
    ensures
        valid_utf8(nonempty_lines_from(b, i)),
    decreases b.len() - i,
{
    lemma_valid_ascii(Seq::<u8>::empty());
    if i < b.len() {
        lemma_line_parts(b, i);
        lemma_line_boundaries(b, i);
        let ls = line_stop(b, i);
        lemma_valid_slice(b, i, ls);
        lemma_nonempty_lines_from_utf8(b, ls);
        let line = if content_stop(b, i) > i {
            b.subrange(i, ls)
        } else {
            Seq::<u8>::empty()
        };
        valid_utf8_concat(line, nonempty_lines_from(b, ls));
    }
}

/// Removing the empty lines of valid UTF-8 gives valid UTF-8.
pub proof fn lemma_without_empty_lines_utf8(b: Seq<u8>)
    requires
        valid_utf8(b),
    ensures
        valid_utf8(without_empty_lines(b)),
{
    lemma_valid_shaped(b);
    lemma_nonempty_lines_from_utf8(b, 0);
}

fn scan_strip_suffix(input: &str, suffix: &str) -> (r: Result<Vec<u8>, LineAffixError>)
    ensures
        match r {
            Ok(out) => !has_line_break(suffix.spec_bytes()) && out@ == suffix_stripped(
                input.spec_bytes(),
                suffix.spec_bytes(),
            ),
            Err(e) => has_line_break(suffix.spec_bytes()) && e == LineAffixError::LineEnding,
        },
{
    let bytes = input.as_bytes();
    let pattern = suffix.as_bytes();
    let ghost b = bytes@;
    let ghost s = pattern@;
    check_no_line_break(pattern)?;
    let mut output: Vec<u8> = Vec::new();
    let mut i: usize = 0;
    while i < bytes.len()
        invariant
            b == bytes@,
            s == pattern@,
            i <= b.len(),
            suffix_stripped(b, s) == output@ + strip_suffix_from(b, i as int, s),
        decreases b.len() - i,
    {
        proof {
            lemma_line_parts(b, i as int);
        }
        let (stop, next) = line_bounds(bytes, i);
        if ends_with_at(bytes, i, stop, pattern) {
            push_range(&mut output, bytes, i, stop - pattern.len());
        } else {
            push_range(&mut output, bytes, i, stop);
        }
        push_range(&mut output, bytes, stop, next);
        i = next;
        assert(suffix_stripped(b, s) =~= output@ + strip_suffix_from(b, i as int, s));
    }
    assert(strip_suffix_from(b, i as int, s) =~= Seq::empty());
    Ok(output)
}

/// Length of the text with `suffix` removed from each line.
pub fn strip_suffix_len(input: &str, suffix: &str) -> (r: Result<usize, LineAffixError>)
    ensures
        match r {
            Ok(n) => !has_line_break(suffix.spec_bytes()) && n == suffix_stripped(
                input.spec_bytes(),
                suffix.spec_bytes(),
            ).len(),
            Err(e) => has_line_break(suffix.spec_bytes()) && e == LineAffixError::LineEnding,
        },
{
    let out = scan_strip_suffix(input, suffix)?;
    Ok(out.len())
}

/// Removes one occurrence of `suffix` right before each line's LF or CRLF
/// ending, or before the end of the text, without trimming. A suffix that
/// holds CR or LF is refused.
pub fn strip_suffix(input: &str, suffix: &str) -> (r: Result<Vec<u8>, LineAffixError>)
    ensures
        match r {
            Ok(out) => !has_line_break(suffix.spec_bytes()) && out@ == suffix_stripped(
                input.spec_bytes(),
                suffix.spec_bytes(),
            ) && valid_utf8(out@),
            Err(e) => has_line_break(suffix.spec_bytes()) && e == LineAffixError::LineEnding,
        },
{
    proof {
        encode_utf8_valid_utf8(input@);
        encode_utf8_valid_utf8(suffix@);
        lemma_suffix_stripped_utf8(input.spec_bytes(), suffix.spec_bytes());
    }
    scan_strip_suffix(input, suffix)
}

fn scan_remove_empty_lines(input: &str) -> (r: Vec<u8>)
    ensures
        r@ == without_empty_lines(input.spec_bytes()),
{
    let bytes = input.as_bytes();
    let ghost b = bytes@;
    let mut output: Vec<u8> = Vec::new();
    let mut i: usize = 0;
    while i < bytes.len()
        invariant
            b == bytes@,
            i <= b.len(),
            without_empty_lines(b) == output@ + nonempty_lines_from(b, i as int),
        decreases b.len() - i,
    {
        proof {
            lemma_line_parts(b, i as int);
        }
        let (stop, next) = line_bounds(bytes, i);
        if stop > i {
            push_range(&mut output, bytes, i, next);
        }
        i = next;
        assert(without_empty_lines(b) =~= output@ + nonempty_lines_from(b, i as int));
    }
    assert(nonempty_lines_from(b, i as int) =~= Seq::empty());
    output
}

/// Length of the text without its empty lines.
pub fn remove_empty_lines_len(input: &str) -> (r: usize)
    ensures
        r == without_empty_lines(input.spec_bytes()).len(),
{
    scan_remove_empty_lines(input).len()
}

/// Removes every line whose content is empty; whitespace-only lines and the
/// endings of the other lines are kept.
pub fn remove_empty_lines(input: &str) -> (r: Vec<u8>)
    ensures
        r@ == without_empty_lines(input.spec_bytes()),
        valid_utf8(r@),
{
    proof {
        encode_utf8_valid_utf8(input@);
        lemma_without_empty_lines_utf8(input.spec_bytes());
    }
    scan_remove_empty_lines(input)
}

/// A position right after an LF, or at either end, is a character boundary.
proof fn lemma_line_boundary(b: Seq<u8>, i: int)
    requires
        valid_utf8(b),
        0 <= i <= b.len(),
        i == 0 || i == b.len() || b[i] == 10u8 || b[i] == 13u8 || b[i - 1] == 10u8,
    ensures
        is_char_boundary(b, i),
{
    is_char_boundary_start_end_of_seq(b);
    if 0 < i < b.len() {
        is_char_boundary_iff_not_is_continuation_byte(b, i);
        if b[i - 1] == 10u8 && b[i] != 10u8 && b[i] != 13u8 {
            is_char_boundary_iff_not_is_continuation_byte(b, i - 1);
            let s = b.subrange(i - 1, b.len() as int);
            valid_utf8_split(b, i - 1);
            assert(valid_first_scalar(s));
            let rest = pop_first_scalar(s);
            assert(valid_utf8(rest));
            assert(rest.len() > 0);
            assert(valid_first_scalar(rest));
            assert(rest[0] == b[i]);
        }
    }
}

/// The lines of the text as borrowed slices, split as `str::lines` does:
/// LF and CRLF endings are removed, blank lines are kept, and a final line
/// ending adds no entry.
pub fn lines(input: &str) -> (r: Vec<&str>)
    ensures
        r@.map_values(|line: &str| line.spec_bytes()) == lines_of(input.spec_bytes()),
{
    let bytes = input.as_bytes();
    let ghost b = bytes@;
    proof {
        encode_utf8_valid_utf8(input@);
    }
    let mut output: Vec<&str> = Vec::new();
    let mut i: usize = 0;
    while i < bytes.len()
        invariant
            b == bytes@,
            b == input.spec_bytes(),
            valid_utf8(b),
            i <= b.len(),
            i == 0 || i == b.len() || b[i - 1] == 10u8,
            lines_of(b) == output@.map_values(|line: &str| line.spec_bytes()) + lines_from(
                b,
                i as int,
            ),
        decreases b.len() - i,
    {
        proof {
            lemma_line_parts(b, i as int);
            lemma_line_end(b, i as int);
            lemma_line_boundary(b, i as int);
        }
        let (stop, next) = line_bounds(bytes, i);
        let (_, rest) = input.split_at(i);
        let ghost r = rest.spec_bytes();
        proof {
            valid_utf8_split(b, i as int);
            let le = line_end(b, i as int);
            if stop < b.len() {
                assert(r[stop - i] == b[stop as int]);
                if stop < le {
                    assert(b[stop as int] == 13u8);
                } else {
                    assert(b[stop as int] == 10u8);
                }
            }
            lemma_line_boundary(r, stop - i);
        }
        let (line, _) = rest.split_at(stop - i);
        let ghost before = output@;
        output.push(line);
        proof {
            assert(line.spec_bytes() =~= b.subrange(i as int, stop as int));
            assert(output@.map_values(|line: &str| line.spec_bytes()) =~= before.map_values(
                |line: &str| line.spec_bytes(),
            ) + seq![b.subrange(i as int, stop as int)]);
        }
        i = next;
        assert(lines_of(b) =~= output@.map_values(|line: &str| line.spec_bytes()) + lines_from(
            b,
            i as int,
        ));
    }
    assert(lines_from(b, i as int) =~= Seq::empty());
    assert(lines_of(b) =~= output@.map_values(|line: &str| line.spec_bytes()));
    output
}

/// Number of lines, as `str::lines` counts them.
pub fn lines_len(input: &str) -> (r: usize)
    ensures
        r == lines_of(input.spec_bytes()).len(),
{
    let all = lines(input);
    proof {
        assert(all@.map_values(|line: &str| line.spec_bytes()).len() == all@.len());
    }
    all.len()
}

} // verus!
