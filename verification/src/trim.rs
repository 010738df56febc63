//! Trimming of the whole text and of each line.
use vstd::prelude::*;
use vstd::utf8::*;
use vstd::string::StringSliceAdditionalSpecFns;
use crate::chars::{
    boundary, char_complete, char_len, lemma_ascii_boundary, lemma_step, lemma_step_within,
    lemma_valid_ascii, lemma_valid_shaped, lemma_valid_slice, lemma_ws_width, shaped,
    whitespace_len, width, ws_width,
};

verus! {

/// Position after the run of whitespace characters that starts at `i`,
/// without passing `limit`.
pub open spec fn skip_ws(b: Seq<u8>, i: int, limit: int) -> int
    decreases b.len() - i,
{
    if 0 <= i < limit && ws_width(b, i) > 0 && i + ws_width(b, i) <= b.len() {
        skip_ws(b, i + ws_width(b, i), limit)
    } else {
        i
    }
}

/// End of the last non-whitespace character in `[i, limit)`, or `e` when
/// every character there is whitespace.
pub open spec fn content_end(b: Seq<u8>, i: int, e: int, limit: int) -> int
    decreases b.len() - i,
{
    if 0 <= i < limit && i + width(b[i]) <= b.len() {
        if ws_width(b, i) == 0 {
            content_end(b, i + width(b[i]), i + width(b[i]), limit)
        } else {
            content_end(b, i + width(b[i]), e, limit)
        }
    } else {
        e
    }
}

/// Start of the trimmed text: the first non-whitespace character.
pub open spec fn trim_start(b: Seq<u8>) -> int {
    skip_ws(b, 0, b.len() as int)
}

/// End of the trimmed text: the end of the last non-whitespace character.
pub open spec fn trim_end(b: Seq<u8>) -> int {
    content_end(b, trim_start(b), trim_start(b), b.len() as int)
}

/// The text without its leading and trailing whitespace.
pub open spec fn trimmed(b: Seq<u8>) -> Seq<u8> {
    b.subrange(trim_start(b), trim_end(b))
}

/// Index of the first LF at or after `i`, or the length when there is none.
pub open spec fn line_end(b: Seq<u8>, i: int) -> int
    decreases b.len() - i,
{
    if 0 <= i < b.len() && b[i] != 10u8 {
        line_end(b, i + 1)
    } else {
        i
    }
}

/// A line ends inside the text, at an LF or the end, with no LF before it.
pub proof fn lemma_line_end(b: Seq<u8>, i: int)
    requires
        0 <= i <= b.len(),
    ensures
        i <= line_end(b, i) <= b.len(),
        line_end(b, i) < b.len() ==> b[line_end(b, i)] == 10u8,
        forall|j: int| i <= j < line_end(b, i) ==> b[j] != 10u8,
    decreases b.len() - i,
{
    if i < b.len() && b[i] != 10u8 {
        lemma_line_end(b, i + 1);
    }
}

/// Starting later inside the same line finds the same line end.
pub proof fn lemma_line_end_skip(b: Seq<u8>, i: int, j: int)
    requires
        0 <= i <= j <= b.len(),
        forall|k: int| i <= k < j ==> b[k] != 10u8,
    ensures
        line_end(b, i) == line_end(b, j),
    decreases j - i,
{
    if i < j {
        lemma_line_end_skip(b, i + 1, j);
    }
}

/// The trimmed content of the line that starts at `i` and ends at `le`.
pub open spec fn trimmed_line(b: Seq<u8>, i: int, le: int) -> Seq<u8> {
    let s = skip_ws(b, i, le);
    b.subrange(s, content_end(b, s, s, le))
}

/// The line ending that follows the line ending at `le`: CRLF when a CR
/// precedes the LF, LF otherwise.
pub open spec fn line_break(b: Seq<u8>, le: int) -> Seq<u8> {
    if le > 0 && b[le - 1] == 13u8 {
        seq![13u8, 10u8]
    } else {
        seq![10u8]
    }
}

/// Every line from `i` on, trimmed, each followed by its original ending.
pub open spec fn trim_lines_from(b: Seq<u8>, i: int) -> Seq<u8>
    decreases b.len() - i,
{
    if 0 <= i < b.len() {
        let le = line_end(b, i);
        proof {
            lemma_line_end(b, i);
        }
        if le < b.len() {
            trimmed_line(b, i, le) + line_break(b, le) + trim_lines_from(b, le + 1)
        } else {
            trimmed_line(b, i, le)
        }
    } else {
        Seq::empty()
    }
}

/// The text with every line trimmed.
pub open spec fn trimmed_lines(b: Seq<u8>) -> Seq<u8> {
    trim_lines_from(b, 0)
}

/// A whitespace run never moves backwards nor past the end of the text.
pub proof fn lemma_skip_ws_bounds(b: Seq<u8>, i: int, limit: int)
    requires
        0 <= i <= b.len(),
    ensures
        i <= skip_ws(b, i, limit) <= b.len(),
        (i < limit && ws_width(b, i) > 0 && i + ws_width(b, i) <= b.len()) ==> skip_ws(b, i, limit)
            >= i + ws_width(b, i),
    decreases b.len() - i,
{
    if 0 <= i < limit && ws_width(b, i) > 0 && i + ws_width(b, i) <= b.len() {
        lemma_skip_ws_bounds(b, i + ws_width(b, i), limit);
    }
}

/// A whitespace run stops at a character boundary within the limit, before
/// a character that is not whitespace.
pub proof fn lemma_skip_ws(b: Seq<u8>, i: int, limit: int)
    requires
        shaped(b),
        boundary(b, i),
        boundary(b, limit),
        i <= limit,
    ensures
        i <= skip_ws(b, i, limit) <= limit,
        boundary(b, skip_ws(b, i, limit)),
        skip_ws(b, i, limit) < limit ==> ws_width(b, skip_ws(b, i, limit)) == 0,
    decreases b.len() - i,
{
    if i < limit {
        lemma_step_within(b, i, limit);
        lemma_step(b, i);
        lemma_ws_width(b, i);
        if ws_width(b, i) > 0 {
            lemma_skip_ws(b, i + ws_width(b, i), limit);
        }
    }
}

/// The content end is a character boundary within the limit.
pub proof fn lemma_content_end(b: Seq<u8>, i: int, e: int, limit: int)
    requires
        shaped(b),
        boundary(b, i),
        boundary(b, limit),
        boundary(b, e),
        i <= limit,
        e <= i,
    ensures
        e <= content_end(b, i, e, limit) <= limit,
        boundary(b, content_end(b, i, e, limit)),
    decreases b.len() - i,
{
    if i < limit {
        lemma_step_within(b, i, limit);
        lemma_step(b, i);
        if ws_width(b, i) == 0 {
            lemma_content_end(b, i + width(b[i]), i + width(b[i]), limit);
        } else {
            lemma_content_end(b, i + width(b[i]), e, limit);
        }
    }
}

/// Trimming valid UTF-8 gives valid UTF-8.
pub proof fn lemma_trimmed_utf8(b: Seq<u8>)
    requires
        valid_utf8(b),
    ensures
        valid_utf8(trimmed(b)),
{
    lemma_valid_shaped(b);
    let n = b.len() as int;
    lemma_skip_ws(b, 0, n);
    let s = trim_start(b);
    lemma_content_end(b, s, s, n);
    lemma_valid_slice(b, s, trim_end(b));
}

proof fn lemma_trim_lines_from_utf8(b: Seq<u8>, i: int)
    requires
        valid_utf8(b),
        shaped(b),
        boundary(b, i),
    ensures
        valid_utf8(trim_lines_from(b, i)),
    decreases b.len() - i,
{
    if i < b.len() {
        let le = line_end(b, i);
        lemma_line_end(b, i);
        lemma_skip_ws(b, i, le);
        let s = skip_ws(b, i, le);
        lemma_content_end(b, s, s, le);
        lemma_valid_slice(b, s, content_end(b, s, s, le));
        if le < b.len() {
            let brk = line_break(b, le);
            lemma_valid_ascii(brk);
            lemma_ascii_boundary(b, le);
            lemma_trim_lines_from_utf8(b, le + 1);
            valid_utf8_concat(trimmed_line(b, i, le), brk);
            valid_utf8_concat(trimmed_line(b, i, le) + brk, trim_lines_from(b, le + 1));
        }
    } else {
        lemma_valid_ascii(Seq::<u8>::empty());
    }
}

/// Trimming each line of valid UTF-8 gives valid UTF-8.
pub proof fn lemma_trimmed_lines_utf8(b: Seq<u8>)
    requires
        valid_utf8(b),
    ensures
        valid_utf8(trimmed_lines(b)),
{
    lemma_valid_shaped(b);
    lemma_trim_lines_from_utf8(b, 0);
}

/// Appends `bytes[from..to]` to `out`.
pub fn push_range(out: &mut Vec<u8>, bytes: &[u8], from: usize, to: usize)
    requires
        from <= to <= bytes@.len(),
    ensures
        final(out)@ == old(out)@ + bytes@.subrange(from as int, to as int),
{
    let mut k = from;
    while k < to
        invariant
            from <= k <= to <= bytes@.len(),
            out@ == old(out)@ + bytes@.subrange(from as int, k as int),
        decreases to - k,
    {
        out.push(bytes[k]);
        k += 1;
        assert(out@ =~= old(out)@ + bytes@.subrange(from as int, k as int));
    }
}

/// Byte offsets of the trimmed text.
fn trim_bounds(input: &str) -> (r: (usize, usize))
    ensures
        r.0 == trim_start(input.spec_bytes()),
        r.1 == trim_end(input.spec_bytes()),
        r.0 <= r.1 <= input.spec_bytes().len(),
{
    let bytes = input.as_bytes();
    let ghost b = bytes@;
    proof {
        encode_utf8_valid_utf8(input@);
        lemma_valid_shaped(b);
    }
    let mut start: usize = 0;
    loop
        invariant
            b == bytes@,
            shaped(b),
            boundary(b, start as int),
            skip_ws(b, start as int, b.len() as int) == trim_start(b),
        ensures
            start as int == trim_start(b),
            boundary(b, start as int),
        decreases b.len() - start,
    {
        if start >= bytes.len() {
            break;
        }
        proof {
            lemma_step(b, start as int);
            lemma_ws_width(b, start as int);
        }
        let len = whitespace_len(bytes, start);
        if len == 0 {
            break;
        }
        start += len;
    }
    let mut end = start;
    let mut i = start;
    proof {
        lemma_content_end(b, start as int, start as int, b.len() as int);
    }
    while i < bytes.len()
        invariant
            b == bytes@,
            shaped(b),
            start as int == trim_start(b),
            boundary(b, i as int),
            boundary(b, end as int),
            start <= end <= i <= b.len(),
            content_end(b, i as int, end as int, b.len() as int) == trim_end(b),
        decreases b.len() - i,
    {
        proof {
            lemma_step(b, i as int);
            lemma_ws_width(b, i as int);
        }
        let white = whitespace_len(bytes, i);
        if white == 0 {
            i += char_len(bytes[i]);
            end = i;
        } else {
            i += white;
        }
    }
    (start, end)
}

/// Length of the trimmed text.
pub fn trim_len(input: &str) -> (r: usize)
    ensures
        r == trimmed(input.spec_bytes()).len(),
{
    let (start, end) = trim_bounds(input);
    end - start
}

/// The text without leading and trailing Unicode whitespace, byte for byte.
pub fn trim(input: &str) -> (r: Vec<u8>)
    ensures
        r@ == trimmed(input.spec_bytes()),
        valid_utf8(r@),
{
    proof {
        encode_utf8_valid_utf8(input@);
        lemma_trimmed_utf8(input.spec_bytes());
    }
    let (start, end) = trim_bounds(input);
    let mut output = Vec::new();
    push_range(&mut output, input.as_bytes(), start, end);
    assert(output@ =~= trimmed(input.spec_bytes()));
    output
}

/// Trims every line, copying the trimmed content and the original LF or
/// CRLF ending of each line, so blank lines survive and CRLF is not turned
/// into LF.
fn scan_trim_lines(input: &str) -> (r: Vec<u8>)
    ensures
        r@ == trimmed_lines(input.spec_bytes()),
{
    let bytes = input.as_bytes();
    let ghost b = bytes@;
    proof {
        encode_utf8_valid_utf8(input@);
        lemma_valid_shaped(b);
    }
    let mut output: Vec<u8> = Vec::new();
    let mut i: usize = 0;
    while i < bytes.len()
        invariant
            b == bytes@,
            shaped(b),
            boundary(b, i as int),
            i <= b.len(),
            trimmed_lines(b) == output@ + trim_lines_from(b, i as int),
        decreases b.len() - i,
    {
        let ghost ls = i as int;
        let ghost le = line_end(b, ls);
        proof {
            lemma_line_end(b, ls);
        }
        let mut start = i;
        let mut end = i;
        let mut leading = true;
        while i < bytes.len() && bytes[i] != 10u8
            invariant
                b == bytes@,
                shaped(b),
                ls <= i <= le <= b.len(),
                le < b.len() ==> b[le] == 10u8,
                line_end(b, i as int) == le,
                boundary(b, i as int),
                leading ==> start == i && end == ls && skip_ws(b, ls, le) == skip_ws(
                    b,
                    i as int,
                    le,
                ),
                !leading ==> start == skip_ws(b, ls, le) && start < end <= i && boundary(
                    b,
                    end as int,
                ) && boundary(b, start as int) && content_end(b, start as int, start as int, le)
                    == content_end(b, i as int, end as int, le),
            decreases b.len() - i,
        {
            proof {
                lemma_step(b, i as int);
                lemma_ws_width(b, i as int);
                lemma_step_within(b, i as int, le);
            }
            let white = whitespace_len(bytes, i);
            let len = char_len(bytes[i]);
            proof {
                assert(char_complete(b, i as int));
                assert forall|k: int| i <= k < i + len implies b[k] != 10u8 by {
                    if k > i {
                        assert(is_continuation_byte(b[k]));
                    }
                }
                lemma_line_end_skip(b, i as int, i + len);
            }
            if white == 0 {
                leading = false;
                end = i + len;
            } else if leading {
                start += len;
            }
            i += len;
        }
        proof {
            if leading {
                lemma_content_end(b, le, le, le);
            } else {
                lemma_content_end(b, i as int, end as int, le);
            }
        }
        assert(trimmed_line(b, ls, le) =~= (if start < end {
            b.subrange(start as int, end as int)
        } else {
            Seq::empty()
        }));
        if start < end {
            push_range(&mut output, bytes, start, end);
        }
        if i < bytes.len() {
            if i > 0 && bytes[i - 1] == 13u8 {
                output.push(13u8);
            }
            output.push(10u8);
            i += 1;
            proof {
                lemma_ascii_boundary(b, le);
            }
            assert(output@ + trim_lines_from(b, i as int) =~= trimmed_lines(b));
        } else {
            assert(output@ =~= trimmed_lines(b));
        }
    }
    assert(trim_lines_from(b, i as int) =~= Seq::empty());
    output
}

/// Length of the text with every line trimmed.
pub fn trim_lines_len(input: &str) -> (r: usize)
    ensures
        r == trimmed_lines(input.spec_bytes()).len(),
{
    scan_trim_lines(input).len()
}

/// The text with Unicode whitespace trimmed from each line; blank lines and
/// the original LF or CRLF endings are preserved.
pub fn trim_lines(input: &str) -> (r: Vec<u8>)
    ensures
        r@ == trimmed_lines(input.spec_bytes()),
        valid_utf8(r@),
{
    proof {
        encode_utf8_valid_utf8(input@);
        lemma_trimmed_lines_utf8(input.spec_bytes());
    }
    scan_trim_lines(input)
}

} // verus!
