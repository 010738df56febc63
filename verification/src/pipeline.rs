//! Pipelines of operations: each operation receives the text that the
//! previous one produced, left to right, and the first refusal stops the
//! pipeline.
use vstd::prelude::*;
use vstd::utf8::valid_utf8;
use vstd::string::StringSliceAdditionalSpecFns;
use crate::as_str;
use crate::json::{json, json_error_text, jsonc, minified, JsonError};
use crate::lines::{remove_empty_lines, strip_suffix, suffix_stripped, without_empty_lines};
use crate::sql::{compacted, sql, sql_error_text, SqlError};
use crate::transforms::{
    affix_error_text, collapse_whitespace, collapse_whitespace_with, collapsed, has_line_break, prefix_stripped,
    replace, replaced, strip_prefix, LineAffixError,
};
use crate::trim::{push_range, trim, trim_lines, trimmed, trimmed_lines};

verus! {

/// One step of a pipeline.
#[derive(Debug, Clone, Copy)]
pub enum Operation<'a> {
    /// Remove leading and trailing Unicode whitespace.
    Trim,
    /// Trim each line, keeping LF and CRLF endings.
    TrimLines,
    /// Remove the lines whose content is empty.
    RemoveEmptyLines,
    /// Collapse each whitespace run to LF, tab or space.
    CollapseWhitespace,
    /// Replace each whitespace run with the given text.
    ReplaceWhitespace(&'a str),
    /// Replace every occurrence of the first text with the second.
    Replace(&'a str, &'a str),
    /// Remove the given prefix from each line.
    StripLinePrefix(&'a str),
    /// Remove the given suffix from each line.
    StripLineSuffix(&'a str),
    /// Compact SQL.
    Sql,
    /// Validate and minify strict JSON.
    Json,
    /// Convert JSONC to minified JSON.
    Jsonc,
}

/// Why a pipeline stopped: the variant names the operation that refused its
/// input, and holds why.
#[derive(Debug, Clone, Copy, PartialEq, Eq)]
pub enum PipelineError {
    StripLinePrefix(LineAffixError),
    StripLineSuffix(LineAffixError),
    Sql(SqlError),
    Json(JsonError),
    Jsonc(JsonError),
}

impl PipelineError {
    /// Name of the operation that refused its input.
    pub fn operation(&self) -> (r: &'static str)
        ensures
            r@ == match *self {
                PipelineError::StripLinePrefix(_) => "strip_line_prefix"@,
                PipelineError::StripLineSuffix(_) => "strip_line_suffix"@,
                PipelineError::Sql(_) => "sql"@,
                PipelineError::Json(_) => "json"@,
                PipelineError::Jsonc(_) => "jsonc"@,
            },
    {
        match self {
            PipelineError::StripLinePrefix(_) => "strip_line_prefix",
            PipelineError::StripLineSuffix(_) => "strip_line_suffix",
            PipelineError::Sql(_) => "sql",
            PipelineError::Json(_) => "json",
            PipelineError::Jsonc(_) => "jsonc",
        }
    }

    /// Why the operation refused its input, in words.
    pub fn message(&self) -> (r: String)
        ensures
            r@ == match *self {
                PipelineError::StripLinePrefix(e) => affix_error_text(e),
                PipelineError::StripLineSuffix(e) => affix_error_text(e),
                PipelineError::Sql(e) => sql_error_text(e),
                PipelineError::Json(e) => json_error_text(e),
                PipelineError::Jsonc(e) => json_error_text(e),
            },
    {
        match self {
            PipelineError::StripLinePrefix(e) => e.message(),
            PipelineError::StripLineSuffix(e) => e.message(),
            PipelineError::Sql(e) => e.message(),
            PipelineError::Json(e) => e.message(),
            PipelineError::Jsonc(e) => e.message(),
        }
    }
}

/// Result of one operation on the bytes `b`.
pub open spec fn operation_result(op: Operation, b: Seq<u8>) -> Result<Seq<u8>, PipelineError> {
    match op {
        Operation::Trim => Ok(trimmed(b)),
        Operation::TrimLines => Ok(trimmed_lines(b)),
        Operation::RemoveEmptyLines => Ok(without_empty_lines(b)),
        Operation::CollapseWhitespace => Ok(collapsed(b, None)),
        Operation::ReplaceWhitespace(t) => Ok(collapsed(b, Some(t.spec_bytes()))),
        Operation::Replace(from, to) => Ok(replaced(b, from.spec_bytes(), to.spec_bytes())),
        Operation::StripLinePrefix(p) => if has_line_break(p.spec_bytes()) {
            Err(PipelineError::StripLinePrefix(LineAffixError::LineEnding))
        } else {
            Ok(prefix_stripped(b, p.spec_bytes()))
        },
        Operation::StripLineSuffix(s) => if has_line_break(s.spec_bytes()) {
            Err(PipelineError::StripLineSuffix(LineAffixError::LineEnding))
        } else {
            Ok(suffix_stripped(b, s.spec_bytes()))
        },
        Operation::Sql => match compacted(b) {
            Ok(o) => Ok(o),
            Err(e) => Err(PipelineError::Sql(e)),
        },
        Operation::Json => match minified(b, false) {
            Ok(o) => Ok(o),
            Err(e) => Err(PipelineError::Json(e)),
        },
        Operation::Jsonc => match minified(b, true) {
            Ok(o) => Ok(o),
            Err(e) => Err(PipelineError::Jsonc(e)),
        },
    }
}

/// Result of running `ops` in order on the bytes `b`.
pub open spec fn pipeline_result(ops: Seq<Operation>, b: Seq<u8>) -> Result<Seq<u8>, PipelineError>
    decreases ops.len(),
{
    if ops.len() == 0 {
        Ok(b)
    } else {
        match operation_result(ops[0], b) {
            Ok(next) => pipeline_result(ops.drop_first(), next),
            Err(e) => Err(e),
        }
    }
}

/// Running two pipelines one after the other is running them joined: the
/// second receives the first one's output, and a refusal in the first stops
/// both.
pub proof fn lemma_pipeline_concat(first: Seq<Operation>, second: Seq<Operation>, b: Seq<u8>)
    ensures
        pipeline_result(first + second, b) == match pipeline_result(first, b) {
            Ok(mid) => pipeline_result(second, mid),
            Err(e) => Err(e),
        },
    decreases first.len(),
{
    if first.len() == 0 {
        assert(first + second =~= second);
    } else {
        assert((first + second)[0] == first[0]);
        assert((first + second).drop_first() =~= first.drop_first() + second);
        if let Ok(next) = operation_result(first[0], b) {
            lemma_pipeline_concat(first.drop_first(), second, next);
        }
    }
}

/// A pipeline of one operation does what that operation does on its own:
/// each name stands for its operation, and the three validators refuse
/// with their own mode.
pub proof fn lemma_single_operation(b: Seq<u8>, t: &str, u: &str)
    ensures
        pipeline_result(seq![Operation::Trim], b) == Ok::<Seq<u8>, PipelineError>(trimmed(b)),
        pipeline_result(seq![Operation::TrimLines], b) == Ok::<Seq<u8>, PipelineError>(
            trimmed_lines(b),
        ),
        pipeline_result(seq![Operation::RemoveEmptyLines], b) == Ok::<Seq<u8>, PipelineError>(
            without_empty_lines(b),
        ),
        pipeline_result(seq![Operation::CollapseWhitespace], b) == Ok::<Seq<u8>, PipelineError>(
            collapsed(b, None),
        ),
        pipeline_result(seq![Operation::ReplaceWhitespace(t)], b) == Ok::<Seq<u8>, PipelineError>(
            collapsed(b, Some(t.spec_bytes())),
        ),
        pipeline_result(seq![Operation::Replace(t, u)], b) == Ok::<Seq<u8>, PipelineError>(
            replaced(b, t.spec_bytes(), u.spec_bytes()),
        ),
        !has_line_break(t.spec_bytes()) ==> pipeline_result(seq![Operation::StripLinePrefix(t)], b)
            == Ok::<Seq<u8>, PipelineError>(prefix_stripped(b, t.spec_bytes())),
        has_line_break(t.spec_bytes()) ==> pipeline_result(seq![Operation::StripLinePrefix(t)], b)
            == Err::<Seq<u8>, PipelineError>(PipelineError::StripLinePrefix(LineAffixError::LineEnding)),
        !has_line_break(t.spec_bytes()) ==> pipeline_result(seq![Operation::StripLineSuffix(t)], b)
            == Ok::<Seq<u8>, PipelineError>(suffix_stripped(b, t.spec_bytes())),
        has_line_break(t.spec_bytes()) ==> pipeline_result(seq![Operation::StripLineSuffix(t)], b)
            == Err::<Seq<u8>, PipelineError>(PipelineError::StripLineSuffix(LineAffixError::LineEnding)),
        compacted(b) matches Ok(o) ==> pipeline_result(seq![Operation::Sql], b) == Ok::<Seq<u8>, PipelineError>(o),
        compacted(b) matches Err(e) ==> pipeline_result(seq![Operation::Sql], b) == Err::<Seq<u8>, PipelineError>(PipelineError::Sql(e)),
        minified(b, false) matches Ok(o) ==> pipeline_result(seq![Operation::Json], b) == Ok::<Seq<u8>, PipelineError>(o),
        minified(b, false) matches Err(e) ==> pipeline_result(seq![Operation::Json], b) == Err::<Seq<u8>, PipelineError>(PipelineError::Json(e)),
        minified(b, true) matches Ok(o) ==> pipeline_result(seq![Operation::Jsonc], b) == Ok::<Seq<u8>, PipelineError>(o),
        minified(b, true) matches Err(e) ==> pipeline_result(seq![Operation::Jsonc], b) == Err::<Seq<u8>, PipelineError>(PipelineError::Jsonc(e)),
{
    reveal_with_fuel(pipeline_result, 2);
    assert(seq![Operation::Trim].drop_first() =~= Seq::<Operation>::empty());
    assert(seq![Operation::TrimLines].drop_first() =~= Seq::<Operation>::empty());
    assert(seq![Operation::RemoveEmptyLines].drop_first() =~= Seq::<Operation>::empty());
    assert(seq![Operation::CollapseWhitespace].drop_first() =~= Seq::<Operation>::empty());
    assert(seq![Operation::ReplaceWhitespace(t)].drop_first() =~= Seq::<Operation>::empty());
    assert(seq![Operation::Replace(t, u)].drop_first() =~= Seq::<Operation>::empty());
    assert(seq![Operation::StripLinePrefix(t)].drop_first() =~= Seq::<Operation>::empty());
    assert(seq![Operation::StripLineSuffix(t)].drop_first() =~= Seq::<Operation>::empty());
    assert(seq![Operation::Sql].drop_first() =~= Seq::<Operation>::empty());
    assert(seq![Operation::Json].drop_first() =~= Seq::<Operation>::empty());
    assert(seq![Operation::Jsonc].drop_first() =~= Seq::<Operation>::empty());
}

/// Runs one operation on `input`.
pub fn apply(op: Operation, input: &str) -> (r: Result<Vec<u8>, PipelineError>)
    ensures
        match r {
            Ok(out) => operation_result(op, input.spec_bytes()) == Ok::<Seq<u8>, PipelineError>(
                out@,
            ) && valid_utf8(out@),
            Err(e) => operation_result(op, input.spec_bytes()) == Err::<Seq<u8>, PipelineError>(
                e,
            ),
        },
{
    match op {
        Operation::Trim => Ok(trim(input)),
        Operation::TrimLines => Ok(trim_lines(input)),
        Operation::RemoveEmptyLines => Ok(remove_empty_lines(input)),
        Operation::CollapseWhitespace => Ok(collapse_whitespace(input)),
        Operation::ReplaceWhitespace(t) => Ok(collapse_whitespace_with(input, t)),
        Operation::Replace(from, to) => Ok(replace(input, from, to)),
        Operation::StripLinePrefix(p) => match strip_prefix(input, p) {
            Ok(out) => Ok(out),
            Err(e) => Err(PipelineError::StripLinePrefix(e)),
        },
        Operation::StripLineSuffix(s) => match strip_suffix(input, s) {
            Ok(out) => Ok(out),
            Err(e) => Err(PipelineError::StripLineSuffix(e)),
        },
        Operation::Sql => match sql(input) {
            Ok(out) => Ok(out),
            Err(e) => Err(PipelineError::Sql(e)),
        },
        Operation::Json => match json(input) {
            Ok(out) => Ok(out),
            Err(e) => Err(PipelineError::Json(e)),
        },
        Operation::Jsonc => match jsonc(input) {
            Ok(out) => Ok(out),
            Err(e) => Err(PipelineError::Jsonc(e)),
        },
    }
}

/// Runs `ops` on `input` left to right, each on the previous one's output;
/// with no operations the text comes back unchanged. The first operation
/// that refuses its input stops the pipeline with its error.
pub fn process(input: &str, ops: &[Operation]) -> (r: Result<Vec<u8>, PipelineError>)
    ensures
        match r {
            Ok(out) => pipeline_result(ops@, input.spec_bytes()) == Ok::<Seq<u8>, PipelineError>(
                out@,
            ) && valid_utf8(out@),
            Err(e) => pipeline_result(ops@, input.spec_bytes()) == Err::<Seq<u8>, PipelineError>(
                e,
            ),
        },
{
    let bytes = input.as_bytes();
    let mut current: Vec<u8> = Vec::new();
    push_range(&mut current, bytes, 0, bytes.len());
    proof {
        vstd::utf8::encode_utf8_valid_utf8(input@);
        assert(current@ =~= input.spec_bytes());
        assert(ops@.skip(0) =~= ops@);
    }
    let mut i: usize = 0;
    let n = ops.len();
    while i < n
        invariant
            n == ops@.len(),
            i <= n,
            valid_utf8(current@),
            pipeline_result(ops@, input.spec_bytes()) == pipeline_result(
                ops@.skip(i as int),
                current@,
            ),
        decreases n - i,
    {
        let text = as_str(current.as_slice());
        let next = apply(ops[i], text);
        proof {
            let rest = ops@.skip(i as int);
            assert(rest[0] == ops@[i as int]);
            assert(rest.drop_first() =~= ops@.skip(i + 1));
        }
        match next {
            Ok(out) => {
                current = out;
            },
            Err(e) => {
                return Err(e);
            },
        }
        i += 1;
    }
    assert(ops@.skip(n as int) =~= Seq::<Operation>::empty());
    Ok(current)
}

} // verus!
