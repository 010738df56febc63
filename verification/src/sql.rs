//! Lexical SQL compaction: comments are removed, each unquoted whitespace or
//! comment run becomes one space, the ends are trimmed, and quoted strings and
//! identifiers are copied byte for byte.
use vstd::prelude::*;
use vstd::utf8::*;
use vstd::string::StringSliceAdditionalSpecFns;
use crate::chars::{
    boundary, char_complete, char_len, lemma_step, lemma_valid_shaped, lemma_ws_width, shaped,
    whitespace_len, width, ws_width,
};
use crate::trim::push_range;
use crate::sql_laws::lemma_compacted_utf8;

verus! {

/// Why SQL text is refused.
#[derive(Debug, Clone, Copy, PartialEq, Eq)]
pub enum SqlError {
    /// A `/*` block comment is not closed.
    UnterminatedBlockComment,
    /// A quoted string or identifier is not closed.
    UnterminatedQuote,
    /// A `$tag$` string is not closed.
    UnterminatedDollarQuote,
}

/// The words that describe each SQL error.
pub open spec fn sql_error_text(e: SqlError) -> Seq<char> {
    match e {
        SqlError::UnterminatedBlockComment => "unterminated block comment"@,
        SqlError::UnterminatedQuote => "unterminated quoted string or identifier"@,
        SqlError::UnterminatedDollarQuote => "unterminated dollar-quoted string"@,
    }
}

impl SqlError {
    /// What went wrong, in words.
    pub fn message(&self) -> (r: String)
        ensures
            r@ == sql_error_text(*self),
    {
        match self {
            SqlError::UnterminatedBlockComment => "unterminated block comment".to_owned(),
            SqlError::UnterminatedQuote => "unterminated quoted string or identifier".to_owned(),
            SqlError::UnterminatedDollarQuote => "unterminated dollar-quoted string".to_owned(),
        }
    }
}

/// Prepends `head` to a successful result.
pub open spec fn prepend<E>(head: Seq<u8>, r: Result<Seq<u8>, E>) -> Result<Seq<u8>, E> {
    match r {
        Ok(rest) => Ok(head + rest),
        Err(e) => Err(e),
    }
}

/// Prepending twice is prepending the joined bytes.
pub proof fn lemma_prepend_assoc<E>(a: Seq<u8>, x: Seq<u8>, r: Result<Seq<u8>, E>)
    ensures
        prepend(a, prepend(x, r)) == prepend(a + x, r),
{
    if let Ok(rest) = r {
        assert(a + (x + rest) =~= (a + x) + rest);
    }
}

/// The two bytes at `i` are `x` then `y`.
pub open spec fn pair_at(b: Seq<u8>, i: int, x: u8, y: u8) -> bool {
    0 <= i && i + 1 < b.len() && b[i] == x && b[i + 1] == y
}

/// Bytes that may appear in an identifier: ASCII letters and digits, `_`,
/// `$`, and any byte of a non-ASCII character.
pub open spec fn is_ident_byte(x: u8) -> bool {
    (97u8 <= x <= 122u8) || (65u8 <= x <= 90u8) || (48u8 <= x <= 57u8) || x == 95u8 || x == 36u8
        || x >= 128u8
}

/// The last byte at or before `j` that is not a continuation byte.
pub open spec fn lead_before(b: Seq<u8>, j: int) -> int
    decreases j,
{
    if j > 0 && is_continuation_byte(b[j]) {
        lead_before(b, j - 1)
    } else {
        j
    }
}

/// The character that ends at `end` is an identifier character.
pub open spec fn ident_before(b: Seq<u8>, end: int) -> bool {
    end > 0 && {
        let s = lead_before(b, end - 1);
        ws_width(b, s) == 0 && is_ident_byte(b[s])
    }
}

/// End of the quoted text whose body continues at `i`: the position after
/// the closing byte, skipping doubled closing bytes and, with `escape`, each
/// backslash together with the byte after it. `None` when it is never closed.
pub open spec fn quoted_from(b: Seq<u8>, i: int, close: u8, escape: bool) -> Option<int>
    decreases b.len() - i,
{
    if 0 <= i < b.len() {
        if escape && b[i] == 92u8 {
            if i + 2 <= b.len() {
                quoted_from(b, i + 2, close, escape)
            } else {
                None
            }
        } else if b[i] == close {
            if i + 1 < b.len() && b[i + 1] == close {
                quoted_from(b, i + 2, close, escape)
            } else {
                Some(i + 1)
            }
        } else {
            quoted_from(b, i + 1, close, escape)
        }
    } else {
        None
    }
}

/// Bytes allowed in a dollar-quote tag (digits only after the first).
pub open spec fn is_tag_byte(x: u8, first: bool) -> bool {
    (97u8 <= x <= 122u8) || (65u8 <= x <= 90u8) || x == 95u8 || x >= 128u8 || (!first && 48u8 <= x
        <= 57u8)
}

/// Position of the `$` that ends the tag opened by the `$` at `start`, with
/// the tag scanned from `t`; `None` when the `$` does not open a tag.
pub open spec fn dollar_tag_end(b: Seq<u8>, start: int, t: int) -> Option<int>
    decreases b.len() - t,
{
    if 0 <= t < b.len() {
        if b[t] == 36u8 {
            Some(t)
        } else if !is_tag_byte(b[t], t == start + 1) || ws_width(b, t) > 0 {
            None
        } else if t + width(b[t]) <= b.len() {
            dollar_tag_end(b, start, t + width(b[t]))
        } else {
            None
        }
    } else {
        None
    }
}

/// End of the first repetition of `b[start..start + n]` at or after `i`.
pub open spec fn dollar_close(b: Seq<u8>, i: int, start: int, n: int) -> Option<int>
    decreases b.len() - i,
{
    if 0 <= i && 0 < n && i + n <= b.len() {
        if b.subrange(i, i + n) == b.subrange(start, start + n) {
            Some(i + n)
        } else {
            dollar_close(b, i + 1, start, n)
        }
    } else {
        None
    }
}

/// End of the dollar-quoted string that starts at `start`, `Ok(0)` when the
/// `$` there does not start one.
pub open spec fn dollar_end_spec(b: Seq<u8>, start: int) -> Result<int, SqlError> {
    if ident_before(b, start) {
        Ok(0)
    } else {
        match dollar_tag_end(b, start, start + 1) {
            None => Ok(0),
            Some(te) => match dollar_close(b, te + 1, start, te - start + 1) {
                Some(e) => Ok(e),
                None => Err(SqlError::UnterminatedDollarQuote),
            },
        }
    }
}

/// Position of the CR or LF that ends a line comment scanned from `i`.
pub open spec fn line_comment_end(b: Seq<u8>, i: int) -> int
    decreases b.len() - i,
{
    if 0 <= i < b.len() && b[i] != 10u8 && b[i] != 13u8 {
        line_comment_end(b, i + 1)
    } else {
        i
    }
}

/// Position and remaining depth after scanning nested block comments from
/// `i` with `depth` comments open.
pub open spec fn block_comment_end(b: Seq<u8>, i: int, depth: nat) -> (int, nat)
    decreases b.len() - i,
{
    if 0 <= i < b.len() && depth > 0 {
        if pair_at(b, i, 47u8, 42u8) {
            block_comment_end(b, i + 2, depth + 1)
        } else if pair_at(b, i, 42u8, 47u8) {
            block_comment_end(b, i + 2, (depth - 1) as nat)
        } else {
            block_comment_end(b, i + 1, depth)
        }
    } else {
        (i, depth)
    }
}

/// A quoted token that must be closed.
pub open spec fn quoted_token(b: Seq<u8>, start: int, close: u8, escape: bool) -> Result<
    int,
    SqlError,
> {
    match quoted_from(b, start + 1, close, escape) {
        Some(e) => Ok(e),
        None => Err(SqlError::UnterminatedQuote),
    }
}

/// An `E` or `e` right before `i` that is not the end of a longer identifier
/// marks a string with backslash escapes.
pub open spec fn escape_prefix(b: Seq<u8>, i: int) -> bool {
    i > 0 && (b[i - 1] == 69u8 || b[i - 1] == 101u8) && !ident_before(b, i - 1)
}

/// End of the token that starts at `i`: a quoted string or identifier, a
/// dollar-quoted string, or a single character.
pub open spec fn token_end(b: Seq<u8>, i: int) -> Result<int, SqlError> {
    let x = b[i];
    if x == 39u8 {
        quoted_token(b, i, 39u8, escape_prefix(b, i))
    } else if x == 34u8 || x == 96u8 {
        quoted_token(b, i, x, false)
    } else if x == 91u8 {
        quoted_token(b, i, 93u8, false)
    } else if x == 36u8 {
        match dollar_end_spec(b, i) {
            Ok(e) => if e == 0 {
                Ok(i + 1)
            } else {
                Ok(e)
            },
            Err(e) => Err(e),
        }
    } else {
        Ok(i + width(x))
    }
}

/// The compacted SQL from `i` on. `pending` records a skipped whitespace or
/// comment run; `started` records that some token was already written.
pub open spec fn sql_from(b: Seq<u8>, i: int, pending: bool, started: bool) -> Result<
    Seq<u8>,
    SqlError,
>
    decreases b.len() - i,
{
    if 0 <= i < b.len() {
        if ws_width(b, i) > 0 && i + ws_width(b, i) <= b.len() {
            sql_from(b, i + ws_width(b, i), true, started)
        } else if pair_at(b, i, 45u8, 45u8) {
            proof {
                lemma_line_comment_end(b, i + 2);
            }
            sql_from(b, line_comment_end(b, i + 2), true, started)
        } else if pair_at(b, i, 47u8, 42u8) {
            proof {
                lemma_block_comment_end(b, i + 2, 1);
            }
            let (j, depth) = block_comment_end(b, i + 2, 1);
            if depth != 0 {
                Err(SqlError::UnterminatedBlockComment)
            } else {
                sql_from(b, j, true, started)
            }
        } else {
            match token_end(b, i) {
                Err(e) => Err(e),
                Ok(end) => if i < end <= b.len() {
                    let sep = if pending && started {
                        seq![32u8]
                    } else {
                        Seq::empty()
                    };
                    prepend(sep + b.subrange(i, end), sql_from(b, end, false, true))
                } else {
                    Ok(Seq::empty())
                },
            }
        }
    } else {
        Ok(Seq::empty())
    }
}

/// The compacted SQL text, or why it is refused.
pub open spec fn compacted(b: Seq<u8>) -> Result<Seq<u8>, SqlError> {
    sql_from(b, 0, false, false)
}

/// A line comment ends inside the text, at a CR, an LF or the end.
pub proof fn lemma_line_comment_end(b: Seq<u8>, i: int)
    requires
        0 <= i <= b.len(),
    ensures
        i <= line_comment_end(b, i) <= b.len(),
        line_comment_end(b, i) < b.len() ==> (b[line_comment_end(b, i)] == 10u8 || b[line_comment_end(b, i)] == 13u8),
    decreases b.len() - i,
{
    if i < b.len() && b[i] != 10u8 && b[i] != 13u8 {
        lemma_line_comment_end(b, i + 1);
    }
}

/// Block comment scanning moves forward, and a closed comment ends with `/`.
pub proof fn lemma_block_comment_end(b: Seq<u8>, i: int, depth: nat)
    requires
        0 <= i <= b.len(),
    ensures
        i <= block_comment_end(b, i, depth).0 <= b.len(),
        block_comment_end(b, i, depth).1 == 0 && depth > 0 ==> block_comment_end(b, i, depth).0
            >= 2 && b[block_comment_end(b, i, depth).0 - 1] == 47u8,
        block_comment_end(b, i, depth).1 <= depth + (b.len() - i),
    decreases b.len() - i,
{
    if 0 <= i < b.len() && depth > 0 {
        if pair_at(b, i, 47u8, 42u8) {
            lemma_block_comment_end(b, i + 2, depth + 1);
        } else if pair_at(b, i, 42u8, 47u8) {
            lemma_block_comment_end(b, i + 2, (depth - 1) as nat);
        } else {
            lemma_block_comment_end(b, i + 1, depth);
        }
    }
}

/// The byte after an ASCII byte is a character boundary.
pub proof fn lemma_after_ascii(b: Seq<u8>, j: int)
    requires
        shaped(b),
        0 < j <= b.len(),
        b[j - 1] < 128,
    ensures
        boundary(b, j),
{
    assert(boundary(b, j - 1));
    assert(char_complete(b, j - 1));
}

/// The bit test for continuation bytes.
pub proof fn lemma_continuation_mask(x: u8)
    ensures
        (x & 0xc0 == 0x80) <==> is_continuation_byte(x),
{
    assert((x & 0xc0 == 0x80) <==> (0x80 <= x && x <= 0xbf)) by (bit_vector);
}

fn pair(bytes: &[u8], i: usize, a: u8, b: u8) -> (r: bool)
    ensures
        r == pair_at(bytes@, i as int, a, b),
{
    i < bytes.len() && i + 1 < bytes.len() && bytes[i] == a && bytes[i + 1] == b
}

fn identifier(byte: u8) -> (r: bool)
    ensures
        r == is_ident_byte(byte),
{
    (97u8 <= byte && byte <= 122u8) || (65u8 <= byte && byte <= 90u8) || (48u8 <= byte && byte
        <= 57u8) || byte == 95u8 || byte == 36u8 || byte >= 128
}

fn identifier_before(bytes: &[u8], end: usize) -> (r: bool)
    requires
        shaped(bytes@),
        end <= bytes@.len(),
    ensures
        r == ident_before(bytes@, end as int),
{
    let ghost b = bytes@;
    if end == 0 {
        return false;
    }
    let mut start = end - 1;
    proof {
        lemma_continuation_mask(bytes[start as int]);
    }
    while bytes[start] & 0xc0 == 0x80
        invariant
            b == bytes@,
            shaped(b),
            start < b.len(),
            lead_before(b, start as int) == lead_before(b, end - 1),
            (bytes[start as int] & 0xc0 == 0x80) <==> is_continuation_byte(b[start as int]),
        decreases start,
    {
        start -= 1;
        proof {
            lemma_continuation_mask(bytes[start as int]);
        }
    }
    proof {
        assert(boundary(b, start as int));
        assert(char_complete(b, start as int));
        lemma_ws_width(b, start as int);
    }
    whitespace_len(bytes, start) == 0 && identifier(bytes[start])
}

fn quoted_end(bytes: &[u8], start: usize, close: u8, escape: bool) -> (r: Option<usize>)
    requires
        start < bytes@.len(),
    ensures
        match r {
            Some(e) => quoted_from(bytes@, start + 1, close, escape) == Some(e as int) && start
                < e <= bytes@.len() && bytes@[e - 1] == close,
            None => quoted_from(bytes@, start + 1, close, escape) is None,
        },
{
    let ghost b = bytes@;
    let n = bytes.len();
    let mut i = start + 1;
    while i < bytes.len()
        invariant
            b == bytes@,
            start < i <= b.len(),
            quoted_from(b, i as int, close, escape) == quoted_from(b, start + 1, close, escape),
        decreases b.len() - i,
    {
        if escape && bytes[i] == 92u8 {
            if i + 1 >= bytes.len() {
                return None;
            }
            i += 2;
        } else if bytes[i] == close {
            if i + 1 < bytes.len() && bytes[i + 1] == close {
                i += 2;
            } else {
                return Some(i + 1);
            }
        } else {
            i += 1;
        }
    }
    None
}

fn dollar_end(bytes: &[u8], start: usize) -> (r: Result<usize, SqlError>)
    requires
        shaped(bytes@),
        boundary(bytes@, start as int),
        start < bytes@.len(),
        bytes@[start as int] == 36u8,
    ensures
        match r {
            Ok(e) => dollar_end_spec(bytes@, start as int) == Ok::<int, SqlError>(e as int) && (e
                == 0 || (start < e <= bytes@.len() && bytes@[e - 1] == 36u8)),
            Err(e) => dollar_end_spec(bytes@, start as int) == Err::<int, SqlError>(e),
        },
{
    let ghost b = bytes@;
    let n = bytes.len();
    if identifier_before(bytes, start) {
        return Ok(0);
    }
    let mut tag_end = start + 1;
    proof {
        lemma_after_ascii(b, start + 1);
    }
    while tag_end < bytes.len() && bytes[tag_end] != 36u8
        invariant
            b == bytes@,
            shaped(b),
            start < tag_end <= b.len(),
            boundary(b, tag_end as int),
            dollar_tag_end(b, start as int, tag_end as int) == dollar_tag_end(
                b,
                start as int,
                start + 1,
            ),
        decreases b.len() - tag_end,
    {
        let x = bytes[tag_end];
        if !((97u8 <= x && x <= 122u8) || (65u8 <= x && x <= 90u8) || x == 95u8 || x >= 128 || (
        tag_end > start + 1 && 48u8 <= x && x <= 57u8)) {
            return Ok(0);
        }
        proof {
            lemma_step(b, tag_end as int);
            lemma_ws_width(b, tag_end as int);
        }
        if whitespace_len(bytes, tag_end) > 0 {
            return Ok(0);
        }
        tag_end += char_len(x);
    }
    if tag_end == bytes.len() {
        return Ok(0);
    }
    let len = tag_end - start + 1;
    let mut i = tag_end + 1;
    while i <= n && len <= n - i
        invariant
            b == bytes@,
            n == b.len(),
            start + len == tag_end + 1 <= n,
            start < tag_end < i,
            b[tag_end as int] == 36u8,
            !ident_before(b, start as int),
            dollar_tag_end(b, start as int, start + 1) == Some(tag_end as int),
            dollar_close(b, i as int, start as int, len as int) == dollar_close(
                b,
                tag_end + 1,
                start as int,
                len as int,
            ),
        decreases n + 1 - i,
    {
        let mut j: usize = 0;
        while j < len && bytes[i + j] == bytes[start + j]
            invariant
                b == bytes@,
                n == b.len(),
                i + len <= n,
                start + len <= n,
                j <= len,
                b.subrange(i as int, i + j) == b.subrange(start as int, start + j),
            decreases len - j,
        {
            j += 1;
            assert(b.subrange(i as int, i + j) =~= b.subrange(start as int, start + j));
        }
        if j == len {
            assert(b.subrange(i as int, i + len)[len - 1] == b.subrange(start as int, start + len)[len - 1]);
            return Ok(i + len);
        }
        assert(b.subrange(i as int, i + len)[j as int] != b.subrange(start as int, start + len)[j as int]);
        i += 1;
    }
    Err(SqlError::UnterminatedDollarQuote)
}

/// Position of the CR or LF that ends the line comment whose text starts at `i`.
fn skip_line_comment(bytes: &[u8], i: usize) -> (r: usize)
    requires
        i <= bytes@.len(),
    ensures
        r == line_comment_end(bytes@, i as int),
{
    let ghost b = bytes@;
    let mut i = i;
    let ghost i0 = i as int;
    while i < bytes.len() && bytes[i] != 10u8 && bytes[i] != 13u8
        invariant
            b == bytes@,
            i0 <= i <= b.len(),
            line_comment_end(b, i as int) == line_comment_end(b, i0),
        decreases b.len() - i,
    {
        i += 1;
    }
    i
}

/// Position after the nested block comments whose text starts at `i`.
fn skip_block_comment(bytes: &[u8], i: usize) -> (r: Result<usize, SqlError>)
    requires
        i <= bytes@.len(),
    ensures
        match r {
            Ok(e) => block_comment_end(bytes@, i as int, 1) == (e as int, 0nat),
            Err(e) => block_comment_end(bytes@, i as int, 1).1 != 0 && e
                == SqlError::UnterminatedBlockComment,
        },
{
    let ghost b = bytes@;
    let ghost i0 = i as int;
    let mut i = i;
    let mut depth: usize = 1;
    while i < bytes.len() && depth > 0
        invariant
            b == bytes@,
            i0 <= i <= b.len(),
            depth <= 1 + i,
            block_comment_end(b, i as int, depth as nat) == block_comment_end(b, i0, 1),
        decreases b.len() - i,
    {
        if pair(bytes, i, 47u8, 42u8) {
            depth += 1;
            i += 2;
        } else if pair(bytes, i, 42u8, 47u8) {
            depth -= 1;
            i += 2;
        } else {
            i += 1;
        }
    }
    if depth != 0 {
        return Err(SqlError::UnterminatedBlockComment);
    }
    Ok(i)
}

/// End of the token that starts at `i`.
fn token(bytes: &[u8], i: usize) -> (r: Result<usize, SqlError>)
    requires
        shaped(bytes@),
        boundary(bytes@, i as int),
        i < bytes@.len(),
    ensures
        match r {
            Ok(e) => token_end(bytes@, i as int) == Ok::<int, SqlError>(e as int) && i < e
                <= bytes@.len() && boundary(bytes@, e as int),
            Err(e) => token_end(bytes@, i as int) == Err::<int, SqlError>(e),
        },
{
    let ghost b = bytes@;
    proof {
        lemma_step(b, i as int);
    }
    let x = bytes[i];
    if x == 39u8 {
        let escape = i > 0 && (bytes[i - 1] == 69u8 || bytes[i - 1] == 101u8) && !identifier_before(
            bytes,
            i - 1,
        );
        match quoted_end(bytes, i, 39u8, escape) {
            Some(e) => {
                proof {
                    lemma_after_ascii(b, e as int);
                }
                Ok(e)
            },
            None => Err(SqlError::UnterminatedQuote),
        }
    } else if x == 34u8 || x == 96u8 {
        match quoted_end(bytes, i, x, false) {
            Some(e) => {
                proof {
                    lemma_after_ascii(b, e as int);
                }
                Ok(e)
            },
            None => Err(SqlError::UnterminatedQuote),
        }
    } else if x == 91u8 {
        match quoted_end(bytes, i, 93u8, false) {
            Some(e) => {
                proof {
                    lemma_after_ascii(b, e as int);
                }
                Ok(e)
            },
            None => Err(SqlError::UnterminatedQuote),
        }
    } else if x == 36u8 {
        let e = dollar_end(bytes, i)?;
        if e == 0 {
            proof {
                lemma_after_ascii(b, i + 1);
            }
            Ok(i + 1)
        } else {
            proof {
                lemma_after_ascii(b, e as int);
            }
            Ok(e)
        }
    } else {
        Ok(i + char_len(x))
    }
}

// A single scanner drives both the sizing and the emitting pass so that they
// agree.
fn scan(input: &str) -> (r: Result<Vec<u8>, SqlError>)
    ensures
        match r {
            Ok(out) => compacted(input.spec_bytes()) == Ok::<Seq<u8>, SqlError>(out@),
            Err(e) => compacted(input.spec_bytes()) == Err::<Seq<u8>, SqlError>(e),
        },
{
    let bytes = input.as_bytes();
    let ghost b = bytes@;
    proof {
        encode_utf8_valid_utf8(input@);
        lemma_valid_shaped(b);
    }
    let mut output: Vec<u8> = Vec::new();
    let mut pending_space = false;
    let mut i: usize = 0;
    while i < bytes.len()
        invariant
            b == bytes@,
            b == input.spec_bytes(),
            shaped(b),
            boundary(b, i as int),
            compacted(b) == prepend(output@, sql_from(b, i as int, pending_space, output@.len() > 0)),
        decreases b.len() - i,
    {
        proof {
            lemma_step(b, i as int);
            lemma_ws_width(b, i as int);
        }
        let white = whitespace_len(bytes, i);
        if white > 0 {
            pending_space = true;
            i += white;
            continue;
        }
        if pair(bytes, i, 45u8, 45u8) {
            let e = skip_line_comment(bytes, i + 2);
            proof {
                lemma_line_comment_end(b, i + 2);
            }
            i = e;
            pending_space = true;
            continue;
        }
        if pair(bytes, i, 47u8, 42u8) {
            let e = match skip_block_comment(bytes, i + 2) {
                Ok(e) => e,
                Err(e) => {
                    proof {
                        assert(sql_from(b, i as int, pending_space, output@.len() > 0) == Err::<Seq<u8>, SqlError>(e));
                    }
                    return Err(e);
                },
            };
            proof {
                lemma_block_comment_end(b, i + 2, 1);
                lemma_after_ascii(b, e as int);
            }
            i = e;
            pending_space = true;
            continue;
        }
        let end = match token(bytes, i) {
            Ok(end) => end,
            Err(e) => {
                proof {
                    assert(sql_from(b, i as int, pending_space, output@.len() > 0) == Err::<Seq<u8>, SqlError>(e));
                }
                return Err(e);
            },
        };
        let ghost before = output@;
        let ghost old_pending = pending_space;
        let ghost i0 = i;
        if pending_space && output.len() > 0 {
            output.push(32u8);
        }
        pending_space = false;
        push_range(&mut output, bytes, i, end);
        i = end;
        proof {
            let sep = if old_pending && before.len() > 0 {
                seq![32u8]
            } else {
                Seq::<u8>::empty()
            };
            assert(output@ =~= before + (sep + b.subrange(i0 as int, end as int)));
            lemma_prepend_assoc(
                before,
                sep + b.subrange(i0 as int, end as int),
                sql_from(b, end as int, false, true),
            );
        }
    }
    Ok(output)
}

/// Length of the compacted SQL text, or why it is refused.
pub fn sql_len(input: &str) -> (r: Result<usize, SqlError>)
    ensures
        match r {
            Ok(n) => compacted(input.spec_bytes()) is Ok && n == compacted(input.spec_bytes())->Ok_0.len(),
            Err(e) => compacted(input.spec_bytes()) == Err::<Seq<u8>, SqlError>(e),
        },
{
    let out = scan(input)?;
    Ok(out.len())
}

/// Strips `--` line comments and nested `/* */` block comments, turns every
/// run of unquoted whitespace and comments between tokens into one space,
/// drops such runs at both ends, and copies quoted strings and identifiers
/// (`'...'`, `E'...'`, `"..."`, `` `...` ``, `[...]`, `$tag$...$tag$`) byte for
/// byte. Unterminated comments and quotes are refused.
pub fn sql(input: &str) -> (r: Result<Vec<u8>, SqlError>)
    ensures
        match r {
            Ok(out) => compacted(input.spec_bytes()) == Ok::<Seq<u8>, SqlError>(out@)
                && valid_utf8(out@),
            Err(e) => compacted(input.spec_bytes()) == Err::<Seq<u8>, SqlError>(e),
        },
{
    let r = scan(input);
    proof {
        if r is Ok {
            encode_utf8_valid_utf8(input@);
            lemma_compacted_utf8(input.spec_bytes());
        }
    }
    r
}

} // verus!
