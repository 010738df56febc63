//! JSON grammar validation and minification. Strings and numbers are copied
//! verbatim; nothing is decoded, converted or reordered. With `jsonc`, `//`
//! and non-nested `/* */` comments and one trailing comma in a nonempty array
//! or object are accepted as well.
use vstd::prelude::*;
use vstd::string::StringSliceAdditionalSpecFns;
use crate::sql::{lemma_line_comment_end, lemma_prepend_assoc, line_comment_end, prepend};
use crate::trim::push_range;
use crate::json_laws::lemma_minified_utf8;
use vstd::utf8::{encode_utf8_valid_utf8, valid_utf8};

verus! {

/// Why a text is refused as JSON (or JSONC); `json_error_text` gives each
/// reason in words.
#[derive(Debug, Clone, Copy, PartialEq, Eq)]
pub enum JsonError {
    UnterminatedBlockComment,
    ExpectedComma,
    UnexpectedEnd,
    UnexpectedPunctuation,
    KeyNotString,
    ControlCharacter,
    IncompleteEscape,
    InvalidUnicodeEscape,
    InvalidEscape,
    UnterminatedString,
    InvalidLiteral,
    InvalidNumber,
    MissingFraction,
    MissingExponent,
    TrailingContent,
    TooDeep,
    ExpectedValue,
}

/// The words that describe each JSON error.
pub open spec fn json_error_text(e: JsonError) -> Seq<char> {
    match e {
        JsonError::UnterminatedBlockComment => "unterminated block comment"@,
        JsonError::ExpectedComma => "expected comma or closing delimiter"@,
        JsonError::UnexpectedEnd => "unexpected end of JSON"@,
        JsonError::UnexpectedPunctuation => "unexpected JSON punctuation"@,
        JsonError::KeyNotString => "object keys must be strings"@,
        JsonError::ControlCharacter => "unescaped control character in string"@,
        JsonError::IncompleteEscape => "incomplete string escape"@,
        JsonError::InvalidUnicodeEscape => "invalid Unicode escape"@,
        JsonError::InvalidEscape => "invalid string escape"@,
        JsonError::UnterminatedString => "unterminated JSON string"@,
        JsonError::InvalidLiteral => "invalid JSON literal"@,
        JsonError::InvalidNumber => "invalid JSON number"@,
        JsonError::MissingFraction => "missing fractional digits"@,
        JsonError::MissingExponent => "missing exponent digits"@,
        JsonError::TrailingContent => "trailing content after JSON value"@,
        JsonError::TooDeep => "nesting exceeds 128 containers"@,
        JsonError::ExpectedValue => "expected JSON value"@,
    }
}

impl JsonError {
    /// What went wrong, in words.
    pub fn message(&self) -> (r: String)
        ensures
            r@ == json_error_text(*self),
    {
        match self {
            JsonError::UnterminatedBlockComment => "unterminated block comment".to_owned(),
            JsonError::ExpectedComma => "expected comma or closing delimiter".to_owned(),
            JsonError::UnexpectedEnd => "unexpected end of JSON".to_owned(),
            JsonError::UnexpectedPunctuation => "unexpected JSON punctuation".to_owned(),
            JsonError::KeyNotString => "object keys must be strings".to_owned(),
            JsonError::ControlCharacter => "unescaped control character in string".to_owned(),
            JsonError::IncompleteEscape => "incomplete string escape".to_owned(),
            JsonError::InvalidUnicodeEscape => "invalid Unicode escape".to_owned(),
            JsonError::InvalidEscape => "invalid string escape".to_owned(),
            JsonError::UnterminatedString => "unterminated JSON string".to_owned(),
            JsonError::InvalidLiteral => "invalid JSON literal".to_owned(),
            JsonError::InvalidNumber => "invalid JSON number".to_owned(),
            JsonError::MissingFraction => "missing fractional digits".to_owned(),
            JsonError::MissingExponent => "missing exponent digits".to_owned(),
            JsonError::TrailingContent => "trailing content after JSON value".to_owned(),
            JsonError::TooDeep => "nesting exceeds 128 containers".to_owned(),
            JsonError::ExpectedValue => "expected JSON value".to_owned(),
        }
    }
}

/// Most arrays and objects that may be open at once.
pub const MAX_DEPTH: usize = 128;

/// The four whitespace bytes of JSON.
pub open spec fn is_json_space(x: u8) -> bool {
    x == 32u8 || x == 9u8 || x == 13u8 || x == 10u8
}

/// An ASCII decimal digit.
pub open spec fn is_digit(x: u8) -> bool {
    48u8 <= x <= 57u8
}

/// An ASCII hexadecimal digit.
pub open spec fn is_hex(x: u8) -> bool {
    (48u8 <= x <= 57u8) || (97u8 <= x <= 102u8) || (65u8 <= x <= 70u8)
}

/// Position after the `*/` that closes a block comment whose text starts at `i`.
pub open spec fn block_close(b: Seq<u8>, i: int) -> Option<int>
    decreases b.len() - i,
{
    if 0 <= i && i + 1 < b.len() {
        if b[i] == 42u8 && b[i + 1] == 47u8 {
            Some(i + 2)
        } else {
            block_close(b, i + 1)
        }
    } else {
        None
    }
}

/// Position after the whitespace, and with `jsonc` the comments, that start at `at`.
pub open spec fn ws_end(b: Seq<u8>, at: int, jsonc: bool) -> Result<int, JsonError>
    decreases b.len() - at,
{
    if 0 <= at < b.len() && is_json_space(b[at]) {
        ws_end(b, at + 1, jsonc)
    } else if jsonc && 0 <= at && at + 1 < b.len() && b[at] == 47u8 {
        if b[at + 1] == 47u8 {
            proof {
                lemma_line_comment_end(b, at + 2);
            }
            ws_end(b, line_comment_end(b, at + 2), jsonc)
        } else if b[at + 1] == 42u8 {
            proof {
                lemma_block_close(b, at + 2);
            }
            match block_close(b, at + 2) {
                Some(e) => ws_end(b, e, jsonc),
                None => Err(JsonError::UnterminatedBlockComment),
            }
        } else {
            Ok(at)
        }
    } else {
        Ok(at)
    }
}

/// First position at or after `i` that does not hold a digit.
pub open spec fn digits_end(b: Seq<u8>, i: int) -> int
    decreases b.len() - i,
{
    if 0 <= i < b.len() && is_digit(b[i]) {
        digits_end(b, i + 1)
    } else {
        i
    }
}

/// Position after the closing quote of a string whose body starts at `i`.
pub open spec fn string_from(b: Seq<u8>, i: int) -> Result<int, JsonError>
    decreases b.len() - i,
{
    if 0 <= i < b.len() {
        let x = b[i];
        if x == 34u8 {
            Ok(i + 1)
        } else if x < 32u8 {
            Err(JsonError::ControlCharacter)
        } else if x == 92u8 {
            if i + 1 >= b.len() {
                Err(JsonError::IncompleteEscape)
            } else {
                let y = b[i + 1];
                if y == 34u8 || y == 92u8 || y == 47u8 || y == 98u8 || y == 102u8 || y == 110u8
                    || y == 114u8 || y == 116u8 {
                    string_from(b, i + 2)
                } else if y == 117u8 {
                    if i + 5 < b.len() && is_hex(b[i + 2]) && is_hex(b[i + 3]) && is_hex(b[i + 4])
                        && is_hex(b[i + 5]) {
                        string_from(b, i + 6)
                    } else {
                        Err(JsonError::InvalidUnicodeEscape)
                    }
                } else {
                    Err(JsonError::InvalidEscape)
                }
            }
        } else {
            string_from(b, i + 1)
        }
    } else {
        Err(JsonError::UnterminatedString)
    }
}

/// End of the string that must start at `at`.
pub open spec fn string_spec(b: Seq<u8>, at: int) -> Result<int, JsonError> {
    if at >= b.len() {
        Err(JsonError::UnexpectedEnd)
    } else if b[at] != 34u8 {
        Err(JsonError::KeyNotString)
    } else {
        string_from(b, at + 1)
    }
}

/// End of the number at `at`: optional minus, integer part without leading
/// zeros, optional fraction, optional exponent.
pub open spec fn number_end(b: Seq<u8>, at: int) -> Result<int, JsonError> {
    let i = if b[at] == 45u8 {
        at + 1
    } else {
        at
    };
    if !(i < b.len() && is_digit(b[i])) {
        Err(JsonError::InvalidNumber)
    } else {
        let i = if b[i] == 48u8 {
            i + 1
        } else {
            digits_end(b, i)
        };
        let frac = if i < b.len() && b[i] == 46u8 {
            if digits_end(b, i + 1) > i + 1 {
                Ok(digits_end(b, i + 1))
            } else {
                Err(JsonError::MissingFraction)
            }
        } else {
            Ok(i)
        };
        match frac {
            Err(e) => Err(e),
            Ok(i) => if i < b.len() && (b[i] == 101u8 || b[i] == 69u8) {
                let j = if i + 1 < b.len() && (b[i + 1] == 43u8 || b[i + 1] == 45u8) {
                    i + 2
                } else {
                    i + 1
                };
                if digits_end(b, j) > j {
                    Ok(digits_end(b, j))
                } else {
                    Err(JsonError::MissingExponent)
                }
            } else {
                Ok(i)
            },
        }
    }
}

/// The bytes of `literal` stand at `at`.
pub open spec fn literal_at(b: Seq<u8>, at: int, literal: Seq<u8>) -> bool {
    0 <= at && at + literal.len() <= b.len() && b.subrange(at, at + literal.len()) == literal
}

/// After a `,` expected at `w`: whether it is a JSONC trailing comma before
/// `close`, and where scanning goes on.
pub open spec fn comma_spec(b: Seq<u8>, w: int, jsonc: bool, close: u8) -> Result<
    (bool, int),
    JsonError,
> {
    if w >= b.len() {
        Err(JsonError::UnexpectedEnd)
    } else if b[w] != 44u8 {
        Err(JsonError::ExpectedComma)
    } else if jsonc {
        match ws_end(b, w + 1, jsonc) {
            Err(e) => Err(e),
            Ok(v) => if v >= b.len() {
                Err(JsonError::UnexpectedEnd)
            } else {
                Ok((b[v] == close, v))
            },
        }
    } else {
        Ok((false, w + 1))
    }
}

/// One step of the grammar machine.
pub enum Step {
    /// The root value ended and only whitespace followed.
    Done,
    /// Go on at `at` with the `states` stack after writing `emitted`.
    Next { at: int, states: Seq<u8>, emitted: Seq<u8> },
}

/// The states a value goes through: root value (0) and end (1); array first
/// element (2), element (3), after element (4); object first key (5), key
/// (6), colon (7), value (8), after value (9).
pub open spec fn valid_states(states: Seq<u8>) -> bool {
    &&& 1 <= states.len() <= MAX_DEPTH + 1
    &&& states[0] <= 1
    &&& forall|k: int| 1 <= k < states.len() ==> 2 <= #[trigger] states[k] <= 9
}

/// State that a finished value leaves its container in.
pub open spec fn after_value(top: u8) -> u8 {
    if top == 0 {
        1
    } else if top == 8 {
        9
    } else {
        4
    }
}

/// Closing a container: the byte is written and its state is dropped.
pub open spec fn close_step(at: int, states: Seq<u8>, close: u8) -> Step {
    Step::Next { at: at + 1, states: states.drop_last(), emitted: seq![close] }
}

/// After-element handling of arrays (`close` is `]`, `next` is 3) and objects
/// (`}` and 6): close, or take a comma, which JSONC lets trail.
pub open spec fn separator_step(b: Seq<u8>, w: int, states: Seq<u8>, jsonc: bool, close: u8, next: u8) -> Result<Step, JsonError> {
    if w >= b.len() {
        Err(JsonError::UnexpectedEnd)
    } else if b[w] == close {
        Ok(close_step(w, states, close))
    } else {
        match comma_spec(b, w, jsonc, close) {
            Err(e) => Err(e),
            Ok((trailing, v)) => if trailing {
                Ok(close_step(v, states, close))
            } else {
                Ok(Step::Next { at: v, states: states.update(states.len() - 1, next), emitted: seq![44u8] })
            },
        }
    }
}

/// A value starting at `w`, entered from state `top`.
pub open spec fn value_step(b: Seq<u8>, w: int, states: Seq<u8>) -> Result<Step, JsonError> {
    let d = states.len() - 1;
    let updated = states.update(d, after_value(states[d]));
    if w >= b.len() {
        Err(JsonError::UnexpectedEnd)
    } else {
        let x = b[w];
        if x == 91u8 || x == 123u8 {
            if d >= MAX_DEPTH {
                Err(JsonError::TooDeep)
            } else {
                Ok(Step::Next { at: w + 1, states: updated.push(if x == 91u8 { 2u8 } else { 5u8 }), emitted: seq![x] })
            }
        } else if x == 34u8 {
            match string_from(b, w + 1) {
                Err(e) => Err(e),
                Ok(e) => Ok(Step::Next { at: e, states: updated, emitted: b.subrange(w, e) }),
            }
        } else if x == 116u8 || x == 102u8 || x == 110u8 {
            let literal = if x == 116u8 {
                seq![116u8, 114u8, 117u8, 101u8]
            } else if x == 102u8 {
                seq![102u8, 97u8, 108u8, 115u8, 101u8]
            } else {
                seq![110u8, 117u8, 108u8, 108u8]
            };
            if literal_at(b, w, literal) {
                Ok(Step::Next { at: w + literal.len(), states: updated, emitted: literal })
            } else {
                Err(JsonError::InvalidLiteral)
            }
        } else if x == 45u8 || is_digit(x) {
            match number_end(b, w) {
                Err(e) => Err(e),
                Ok(e) => Ok(Step::Next { at: e, states: updated, emitted: b.subrange(w, e) }),
            }
        } else {
            Err(JsonError::ExpectedValue)
        }
    }
}

/// One step of the grammar machine from `at` with the `states` stack.
pub open spec fn step_spec(b: Seq<u8>, jsonc: bool, at: int, states: Seq<u8>) -> Result<Step, JsonError> {
    match ws_end(b, at, jsonc) {
        Err(e) => Err(e),
        Ok(w) => {
            let d = states.len() - 1;
            let top = states[d];
            if top == 1 {
                if w == b.len() {
                    Ok(Step::Done)
                } else {
                    Err(JsonError::TrailingContent)
                }
            } else if (top == 2 || top == 5) && w >= b.len() {
                Err(JsonError::UnexpectedEnd)
            } else if top == 2 && b[w] == 93u8 {
                Ok(close_step(w, states, 93u8))
            } else if top == 4 {
                separator_step(b, w, states, jsonc, 93u8, 3)
            } else if top == 5 && b[w] == 125u8 {
                Ok(close_step(w, states, 125u8))
            } else if top == 5 || top == 6 {
                match string_spec(b, w) {
                    Err(e) => Err(e),
                    Ok(e) => Ok(Step::Next { at: e, states: states.update(d, 7), emitted: b.subrange(w, e) }),
                }
            } else if top == 7 {
                if w >= b.len() {
                    Err(JsonError::UnexpectedEnd)
                } else if b[w] != 58u8 {
                    Err(JsonError::UnexpectedPunctuation)
                } else {
                    Ok(Step::Next { at: w + 1, states: states.update(d, 8), emitted: seq![58u8] })
                }
            } else if top == 9 {
                separator_step(b, w, states, jsonc, 125u8, 6)
            } else {
                value_step(b, w, states)
            }
        }
    }
}

/// The minified output of the grammar machine from `at` on.
pub open spec fn run(b: Seq<u8>, jsonc: bool, at: int, states: Seq<u8>) -> Result<Seq<u8>, JsonError>
    decreases b.len() - at,
{
    match step_spec(b, jsonc, at, states) {
        Err(e) => Err(e),
        Ok(Step::Done) => Ok(Seq::empty()),
        Ok(Step::Next { at: next, states: next_states, emitted }) => if at < next <= b.len() {
            prepend(emitted, run(b, jsonc, next, next_states))
        } else {
            Ok(Seq::empty())
        },
    }
}

/// The minified JSON text, or why the input is refused.
pub open spec fn minified(b: Seq<u8>, jsonc: bool) -> Result<Seq<u8>, JsonError> {
    run(b, jsonc, 0, seq![0u8])
}

/// A block comment closes inside the text, right after a `/`.
pub proof fn lemma_block_close(b: Seq<u8>, i: int)
    requires
        0 <= i,
    ensures
        block_close(b, i) matches Some(e) ==> i + 2 <= e <= b.len() && b[e - 1] == 47u8,
    decreases b.len() - i,
{
    if i + 1 < b.len() && !(b[i] == 42u8 && b[i + 1] == 47u8) {
        lemma_block_close(b, i + 1);
    }
}

/// A digit run ends inside the text.
pub proof fn lemma_digits_end(b: Seq<u8>, i: int)
    requires
        0 <= i <= b.len(),
    ensures
        i <= digits_end(b, i) <= b.len(),
    decreases b.len() - i,
{
    if i < b.len() && is_digit(b[i]) {
        lemma_digits_end(b, i + 1);
    }
}

/// Skipping whitespace and comments moves forward and stays inside the text.
pub proof fn lemma_ws_end(b: Seq<u8>, at: int, jsonc: bool)
    requires
        0 <= at <= b.len(),
    ensures
        ws_end(b, at, jsonc) matches Ok(w) ==> at <= w <= b.len(),
    decreases b.len() - at,
{
    if 0 <= at < b.len() && is_json_space(b[at]) {
        lemma_ws_end(b, at + 1, jsonc);
    } else if jsonc && 0 <= at && at + 1 < b.len() && b[at] == 47u8 {
        if b[at + 1] == 47u8 {
            lemma_line_comment_end(b, at + 2);
            lemma_ws_end(b, line_comment_end(b, at + 2), jsonc);
        } else if b[at + 1] == 42u8 {
            lemma_block_close(b, at + 2);
            if let Some(e) = block_close(b, at + 2) {
                lemma_ws_end(b, e, jsonc);
            }
        }
    }
}

/// A string ends after its body starts and inside the text.
pub proof fn lemma_string_from(b: Seq<u8>, i: int)
    requires
        0 <= i,
    ensures
        string_from(b, i) matches Ok(e) ==> i < e <= b.len(),
    decreases b.len() - i,
{
    if 0 <= i < b.len() {
        let x = b[i];
        if x != 34u8 && x >= 32u8 {
            if x == 92u8 {
                if i + 1 < b.len() {
                    lemma_string_from(b, i + 2);
                    if i + 5 < b.len() {
                        lemma_string_from(b, i + 6);
                    }
                }
            } else {
                lemma_string_from(b, i + 1);
            }
        }
    }
}

/// A number ends after it starts and inside the text.
pub proof fn lemma_number_end(b: Seq<u8>, at: int)
    requires
        0 <= at < b.len(),
    ensures
        number_end(b, at) matches Ok(e) ==> at < e <= b.len(),
{
    let i = if b[at] == 45u8 {
        at + 1
    } else {
        at
    };
    if i < b.len() && is_digit(b[i]) {
        lemma_digits_end(b, i);
        let i2 = if b[i] == 48u8 {
            i + 1
        } else {
            digits_end(b, i)
        };
        if i2 < b.len() && b[i2] == 46u8 {
            lemma_digits_end(b, i2 + 1);
        }
        if let Ok(i3) = (if i2 < b.len() && b[i2] == 46u8 {
            if digits_end(b, i2 + 1) > i2 + 1 {
                Ok(digits_end(b, i2 + 1))
            } else {
                Err(JsonError::MissingFraction)
            }
        } else {
            Ok(i2)
        }) {
            if i3 < b.len() {
                let j = if i3 + 1 < b.len() && (b[i3 + 1] == 43u8 || b[i3 + 1] == 45u8) {
                    i3 + 2
                } else {
                    i3 + 1
                };
                lemma_digits_end(b, j);
            }
        }
    }
}

/// Each step moves forward, stays inside the text and keeps the states valid.
pub proof fn lemma_step_progress(b: Seq<u8>, jsonc: bool, at: int, states: Seq<u8>)
    requires
        0 <= at <= b.len(),
        valid_states(states),
    ensures
        step_spec(b, jsonc, at, states) matches Ok(Step::Next { at: next, states: next_states, .. }) ==> at < next <= b.len() && valid_states(next_states),
{
    lemma_ws_end(b, at, jsonc);
    if let Ok(w) = ws_end(b, at, jsonc) {
        lemma_string_from(b, w + 1);
        if w < b.len() {
            lemma_number_end(b, w);
            lemma_ws_end(b, w + 1, jsonc);
        }
        let d = states.len() - 1;
        assert(d >= 1 ==> 2 <= states[d] <= 9);
    }
}

/// Cursor over the input and the minified output written so far.
struct Parser<'a> {
    input: &'a [u8],
    at: usize,
    output: Vec<u8>,
    jsonc: bool,
}

impl<'a> Parser<'a> {
    /// The input, the mode and the position stay as they were, and the position is in range.
    spec fn same_input(&self, other: &Parser<'a>) -> bool {
        &&& self.input@ == other.input@
        &&& self.jsonc == other.jsonc
        &&& self.at <= self.input@.len()
    }

    fn whitespace(&mut self) -> (r: Result<(), JsonError>)
        requires
            old(self).at <= old(self).input@.len(),
        ensures
            final(self).same_input(old(self)),
            final(self).output@ == old(self).output@,
            match r {
                Ok(_) => ws_end(old(self).input@, old(self).at as int, old(self).jsonc) == Ok::<
                    int,
                    JsonError,
                >(final(self).at as int),
                Err(e) => ws_end(old(self).input@, old(self).at as int, old(self).jsonc) == Err::<
                    int,
                    JsonError,
                >(e),
            },
    {
        let ghost b = self.input@;
        let ghost start = self.at as int;
        loop
            invariant
                self.input@ == b,
                b == old(self).input@,
                start == old(self).at,
                self.same_input(old(self)),
                self.output@ == old(self).output@,
                ws_end(b, self.at as int, self.jsonc) == ws_end(b, start, old(self).jsonc),
            decreases b.len() - self.at,
        {
            let ghost it = self.at as int;
            while self.at < self.input.len() && (self.input[self.at] == 32u8 || self.input[self.at]
                == 9u8 || self.input[self.at] == 13u8 || self.input[self.at] == 10u8)
                invariant
                    self.input@ == b,
                    self.same_input(old(self)),
                    self.output@ == old(self).output@,
                    it <= self.at,
                    ws_end(b, self.at as int, self.jsonc) == ws_end(b, start, old(self).jsonc),
                decreases b.len() - self.at,
            {
                self.at += 1;
            }
            if !self.jsonc || self.at >= self.input.len() || self.at + 1 >= self.input.len()
                || self.input[self.at] != 47u8 {
                return Ok(());
            }
            let next = self.input[self.at + 1];
            if next == 47u8 {
                self.at += 2;
                let ghost c = self.at as int;
                proof {
                    lemma_line_comment_end(b, c);
                }
                while self.at < self.input.len() && self.input[self.at] != 13u8 && self.input[self.at]
                    != 10u8
                    invariant
                        self.input@ == b,
                        self.same_input(old(self)),
                        self.output@ == old(self).output@,
                        it < c <= self.at,
                        line_comment_end(b, self.at as int) == line_comment_end(b, c),
                    decreases b.len() - self.at,
                {
                    self.at += 1;
                }
            } else if next == 42u8 {
                self.at += 2;
                let ghost c = self.at as int;
                proof {
                    lemma_block_close(b, c);
                }
                while self.at < self.input.len() && self.at + 1 < self.input.len() && !(
                self.input[self.at] == 42u8 && self.input[self.at + 1] == 47u8)
                    invariant
                        self.input@ == b,
                        self.same_input(old(self)),
                        self.output@ == old(self).output@,
                        it < c <= self.at,
                        block_close(b, self.at as int) == block_close(b, c),
                    decreases b.len() - self.at,
                {
                    self.at += 1;
                }
                if !(self.at < self.input.len() && self.at + 1 < self.input.len()) {
                    return Err(JsonError::UnterminatedBlockComment);
                }
                self.at += 2;
            } else {
                return Ok(());
            }
        }
    }

    fn peek(&self) -> (r: Result<u8, JsonError>)
        ensures
            self.input@.len() <= usize::MAX,
            match r {
                Ok(x) => self.at < self.input@.len() && x == self.input@[self.at as int],
                Err(e) => self.at >= self.input@.len() && e == JsonError::UnexpectedEnd,
            },
    {
        if self.at >= self.input.len() {
            return Err(JsonError::UnexpectedEnd);
        }
        Ok(self.input[self.at])
    }

    fn copy_to(&mut self, end: usize)
        requires
            old(self).at <= end <= old(self).input@.len(),
        ensures
            final(self).input@ == old(self).input@,
            final(self).jsonc == old(self).jsonc,
            final(self).at == end,
            final(self).output@ == old(self).output@ + old(self).input@.subrange(
                old(self).at as int,
                end as int,
            ),
    {
        push_range(&mut self.output, self.input, self.at, end);
        self.at = end;
    }

    fn punctuation(&mut self, expected: u8) -> (r: Result<(), JsonError>)
        requires
            old(self).at <= old(self).input@.len(),
        ensures
            final(self).same_input(old(self)),
            match r {
                Ok(_) => old(self).at < old(self).input@.len() && old(self).input@[old(self).at as int] == expected && final(self).at == old(self).at + 1 && final(self).output@ == old(self).output@.push(expected),
                Err(e) => (old(self).at >= old(self).input@.len() && e == JsonError::UnexpectedEnd)
                    || (old(self).at < old(self).input@.len() && old(self).input@[old(self).at as int] != expected && e == JsonError::UnexpectedPunctuation),
            },
    {
        let x = match self.peek() {
            Ok(x) => x,
            Err(e) => {
                return Err(e);
            },
        };
        if x != expected {
            return Err(JsonError::UnexpectedPunctuation);
        }
        let end = self.at + 1;
        self.copy_to(end);
        assert(old(self).input@.subrange(old(self).at as int, end as int) =~= seq![expected]);
        Ok(())
    }

    fn string(&mut self) -> (r: Result<(), JsonError>)
        requires
            old(self).at <= old(self).input@.len(),
        ensures
            final(self).same_input(old(self)),
            match r {
                Ok(_) => string_spec(old(self).input@, old(self).at as int) == Ok::<int, JsonError>(
                    final(self).at as int,
                ) && final(self).output@ == old(self).output@ + old(self).input@.subrange(
                    old(self).at as int,
                    final(self).at as int,
                ),
                Err(e) => string_spec(old(self).input@, old(self).at as int) == Err::<
                    int,
                    JsonError,
                >(e),
            },
    {
        let ghost b = self.input@;
        let x = match self.peek() {
            Ok(x) => x,
            Err(e) => {
                return Err(e);
            },
        };
        if x != 34u8 {
            return Err(JsonError::KeyNotString);
        }
        let mut i = self.at + 1;
        while i < self.input.len()
            invariant
                self.input@ == b,
                b == old(self).input@,
                self.same_input(old(self)),
                self.at == old(self).at,
                self.output@ == old(self).output@,
                self.at < i <= b.len(),
                b.len() <= usize::MAX,
                string_from(b, i as int) == string_from(b, self.at + 1),
                b[self.at as int] == 34u8,
            decreases b.len() - i,
        {
            let byte = self.input[i];
            if byte == 34u8 {
                self.copy_to(i + 1);
                return Ok(());
            }
            if byte < 32u8 {
                return Err(JsonError::ControlCharacter);
            }
            if byte == 92u8 {
                let ghost p = i as int;
                i += 1;
                if i >= self.input.len() {
                    return Err(JsonError::IncompleteEscape);
                }
                let y = self.input[i];
                if y == 34u8 || y == 92u8 || y == 47u8 || y == 98u8 || y == 102u8 || y == 110u8 || y
                    == 114u8 || y == 116u8 {
                } else if y == 117u8 {
                    let mut digit: usize = 0;
                    while digit < 4
                        invariant
                            self.input@ == b,
                            b == old(self).input@,
                            self.same_input(old(self)),
                            self.at == old(self).at,
                            self.output@ == old(self).output@,
                            string_from(b, p) == string_from(b, self.at + 1),
                            self.at < b.len(),
                            b[self.at as int] == 34u8,
                            0 <= p,
                            p + 1 < b.len(),
                            b.len() <= usize::MAX,
                            b[p] == 92u8,
                            b[p + 1] == 117u8,
                            i == p + 1 + digit,
                            digit <= 4,
                            i < b.len(),
                            forall|k: int| 1 <= k <= digit ==> #[trigger] is_hex(b[p + 1 + k]),
                        decreases 4 - digit,
                    {
                        i += 1;
                        if !(i < self.input.len() && ((48u8 <= self.input[i] && self.input[i] <= 57u8)
                            || (97u8 <= self.input[i] && self.input[i] <= 102u8) || (65u8
                            <= self.input[i] && self.input[i] <= 70u8))) {
                            proof {
                                if i < b.len() {
                                    assert(!is_hex(b[i as int]));
                                    if digit == 0 {
                                        assert(!is_hex(b[p + 2]));
                                    } else if digit == 1 {
                                        assert(!is_hex(b[p + 3]));
                                    } else if digit == 2 {
                                        assert(!is_hex(b[p + 4]));
                                    } else {
                                        assert(!is_hex(b[p + 5]));
                                    }
                                }
                                assert(string_from(b, p) == Err::<int, JsonError>(
                                JsonError::InvalidUnicodeEscape,
                                ));
                            }
                            return Err(JsonError::InvalidUnicodeEscape);
                        }
                        digit += 1;
                        assert(is_hex(b[p + 1 + digit]));
                    }
                    assert(is_hex(b[p + 2]) && is_hex(b[p + 3]) && is_hex(b[p + 4]) && is_hex(
                        b[p + 5],
                    )) by {
                        assert(is_hex(b[p + 1 + 1]));
                        assert(is_hex(b[p + 1 + 2]));
                        assert(is_hex(b[p + 1 + 3]));
                        assert(is_hex(b[p + 1 + 4]));
                    }
                } else {
                    return Err(JsonError::InvalidEscape);
                }
            }
            i += 1;
        }
        Err(JsonError::UnterminatedString)
    }

    fn literal(&mut self, literal: &[u8]) -> (r: Result<(), JsonError>)
        requires
            old(self).at <= old(self).input@.len(),
        ensures
            final(self).same_input(old(self)),
            match r {
                Ok(_) => literal_at(old(self).input@, old(self).at as int, literal@) && final(self).at == old(self).at + literal@.len() && final(self).output@ == old(self).output@ + literal@,
                Err(e) => !literal_at(old(self).input@, old(self).at as int, literal@) && e
                    == JsonError::InvalidLiteral,
            },
    {
        let ghost b = self.input@;
        let mut i: usize = 0;
        let n = self.input.len();
        while i < literal.len()
            invariant
                n == b.len(),
                self.input@ == b,
                b == old(self).input@,
                self.same_input(old(self)),
                self.output@ == old(self).output@,
                self.at == old(self).at,
                self.at <= b.len(),
                i <= literal@.len(),
                self.at + i <= b.len(),
                b.subrange(self.at as int, self.at + i) == literal@.subrange(0, i as int),
            decreases literal@.len() - i,
        {
            if !(self.at + i < self.input.len() && self.input[self.at + i] == literal[i]) {
                proof {
                    if self.at + literal@.len() <= b.len() {
                        assert(b.subrange(self.at as int, self.at + literal@.len())[i as int]
                            != literal@[i as int]);
                    }
                }
                return Err(JsonError::InvalidLiteral);
            }
            i += 1;
            assert(b.subrange(self.at as int, self.at + i) =~= literal@.subrange(0, i as int));
        }
        assert(literal@.subrange(0, i as int) =~= literal@);
        let end = self.at + literal.len();
        self.copy_to(end);
        Ok(())
    }

    fn digits(&self, i: usize) -> (r: usize)
        requires
            i <= self.input@.len(),
        ensures
            r == digits_end(self.input@, i as int),
    {
        let mut i = i;
        let ghost i0 = i as int;
        while i < self.input.len() && 48u8 <= self.input[i] && self.input[i] <= 57u8
            invariant
                i0 <= i <= self.input@.len(),
                digits_end(self.input@, i as int) == digits_end(self.input@, i0),
            decreases self.input@.len() - i,
        {
            i += 1;
        }
        i
    }

    fn number(&mut self) -> (r: Result<(), JsonError>)
        requires
            old(self).at < old(self).input@.len(),
        ensures
            final(self).same_input(old(self)),
            match r {
                Ok(_) => number_end(old(self).input@, old(self).at as int) == Ok::<int, JsonError>(
                    final(self).at as int,
                ) && final(self).output@ == old(self).output@ + old(self).input@.subrange(
                    old(self).at as int,
                    final(self).at as int,
                ),
                Err(e) => number_end(old(self).input@, old(self).at as int) == Err::<
                    int,
                    JsonError,
                >(e),
            },
    {
        let ghost b = self.input@;
        proof {
            lemma_number_end(b, self.at as int);
        }
        let mut i = self.at;
        if self.input[i] == 45u8 {
            i += 1;
        }
        if !(i < self.input.len() && 48u8 <= self.input[i] && self.input[i] <= 57u8) {
            return Err(JsonError::InvalidNumber);
        }
        proof {
            lemma_digits_end(b, i as int);
        }
        if self.input[i] == 48u8 {
            i += 1;
        } else {
            i = self.digits(i);
        }
        if i < self.input.len() && self.input[i] == 46u8 {
            i += 1;
            let start = i;
            i = self.digits(i);
            if !(i > start) {
                return Err(JsonError::MissingFraction);
            }
        }
        proof {
            lemma_digits_end(b, i as int);
        }
        if i < self.input.len() && (self.input[i] == 101u8 || self.input[i] == 69u8) {
            i += 1;
            if i < self.input.len() && (self.input[i] == 43u8 || self.input[i] == 45u8) {
                i += 1;
            }
            let start = i;
            i = self.digits(i);
            if !(i > start) {
                return Err(JsonError::MissingExponent);
            }
        }
        self.copy_to(i);
        Ok(())
    }

    // Delay writing the comma until it is known not to be a JSONC trailing comma.
    fn comma(&mut self, close: u8) -> (r: Result<bool, JsonError>)
        requires
            old(self).at <= old(self).input@.len(),
        ensures
            final(self).same_input(old(self)),
            match r {
                Ok(trailing) => comma_spec(old(self).input@, old(self).at as int, old(self).jsonc, close)
                    == Ok::<(bool, int), JsonError>((trailing, final(self).at as int)) && final(self).output@ == (if trailing {
                    old(self).output@
                } else {
                    old(self).output@.push(44u8)
                }),
                Err(e) => comma_spec(old(self).input@, old(self).at as int, old(self).jsonc, close)
                    == Err::<(bool, int), JsonError>(e),
            },
    {
        let x = match self.peek() {
            Ok(x) => x,
            Err(e) => {
                return Err(e);
            },
        };
        if x != 44u8 {
            return Err(JsonError::ExpectedComma);
        }
        self.at += 1;
        if self.jsonc {
            match self.whitespace() {
                Ok(_) => {},
                Err(e) => {
                    return Err(e);
                },
            }
            let y = match self.peek() {
                Ok(y) => y,
                Err(e) => {
                    return Err(e);
                },
            };
            if y == close {
                return Ok(true);
            }
        }
        self.output.push(44u8);
        Ok(false)
    }

    /// What a finished step has written.
    spec fn written(&self, before: &Parser<'a>) -> Seq<u8> {
        self.output@.skip(before.output@.len() as int)
    }

    /// After-element handling for arrays and objects: close, or take a comma.
    fn separator(&mut self, states: &mut Vec<u8>, close: u8, next: u8) -> (r: Result<(), JsonError>)
        requires
            old(self).at <= old(self).input@.len(),
            2 <= old(states)@.len(),
        ensures
            final(self).same_input(old(self)),
            match r {
                Ok(_) => final(self).output@.len() >= old(self).output@.len()
                    && final(self).output@.take(old(self).output@.len() as int) == old(self).output@
                    && separator_step(old(self).input@, old(self).at as int, old(states)@, old(self).jsonc, close, next) == Ok::<Step, JsonError>(Step::Next {
                    at: final(self).at as int,
                    states: final(states)@,
                    emitted: final(self).written(old(self)),
                }),
                Err(e) => separator_step(old(self).input@, old(self).at as int, old(states)@, old(self).jsonc, close, next) == Err::<Step, JsonError>(e),
            },
    {
        let ghost out0 = self.output@;
        let x = match self.peek() {
            Ok(x) => x,
            Err(e) => {
                return Err(e);
            },
        };
        if x == close {
            match self.punctuation(close) {
                Ok(_) => {},
                Err(e) => {
                    return Err(e);
                },
            }
            states.pop();
            assert(self.output@.skip(out0.len() as int) =~= seq![close]);
            assert(self.output@.take(out0.len() as int) =~= out0);
            return Ok(());
        }
        let trailing = match self.comma(close) {
            Ok(t) => t,
            Err(e) => {
                return Err(e);
            },
        };
        if trailing {
            match self.punctuation(close) {
                Ok(_) => {},
                Err(e) => {
                    return Err(e);
                },
            }
            states.pop();
            assert(self.output@.skip(out0.len() as int) =~= seq![close]);
        } else {
            let d = states.len() - 1;
            states.set(d, next);
            assert(self.output@.skip(out0.len() as int) =~= seq![44u8]);
        }
        assert(self.output@.take(out0.len() as int) =~= out0);
        Ok(())
    }

    /// A value at the current position: its container moves on to the next
    /// state, and an array or object pushes its first state.
    fn value(&mut self, states: &mut Vec<u8>) -> (r: Result<(), JsonError>)
        requires
            old(self).at <= old(self).input@.len(),
            1 <= old(states)@.len(),
        ensures
            final(self).same_input(old(self)),
            match r {
                Ok(_) => final(self).output@.len() >= old(self).output@.len()
                    && final(self).output@.take(old(self).output@.len() as int) == old(self).output@
                    && value_step(old(self).input@, old(self).at as int, old(states)@) == Ok::<Step, JsonError>(Step::Next {
                    at: final(self).at as int,
                    states: final(states)@,
                    emitted: final(self).written(old(self)),
                }),
                Err(e) => value_step(old(self).input@, old(self).at as int, old(states)@) == Err::<Step, JsonError>(e),
            },
    {
        let ghost out0 = self.output@;
        let ghost b = self.input@;
        let ghost at0 = self.at as int;
        let d = states.len() - 1;
        let top = states[d];
        let next_top: u8 = if top == 0 {
            1
        } else if top == 8 {
            9
        } else {
            4
        };
        states.set(d, next_top);
        let x = match self.peek() {
            Ok(x) => x,
            Err(e) => {
                return Err(e);
            },
        };
        if x == 91u8 || x == 123u8 {
            if d >= MAX_DEPTH {
                return Err(JsonError::TooDeep);
            }
            match self.punctuation(x) {
                Ok(_) => {},
                Err(e) => {
                    return Err(e);
                },
            }
            states.push(if x == 91u8 {
                2u8
            } else {
                5u8
            });
            assert(self.output@.skip(out0.len() as int) =~= seq![x]);
        } else if x == 34u8 {
            match self.string() {
                Ok(_) => {},
                Err(e) => {
                    return Err(e);
                },
            }
            assert(self.output@.skip(out0.len() as int) =~= b.subrange(at0, self.at as int));
        } else if x == 116u8 || x == 102u8 || x == 110u8 {
            let literal: Vec<u8> = if x == 116u8 {
                vec![116u8, 114u8, 117u8, 101u8]
            } else if x == 102u8 {
                vec![102u8, 97u8, 108u8, 115u8, 101u8]
            } else {
                vec![110u8, 117u8, 108u8, 108u8]
            };
            let ghost lit = if x == 116u8 {
                seq![116u8, 114u8, 117u8, 101u8]
            } else if x == 102u8 {
                seq![102u8, 97u8, 108u8, 115u8, 101u8]
            } else {
                seq![110u8, 117u8, 108u8, 108u8]
            };
            assert(literal@ =~= lit);
            match self.literal(literal.as_slice()) {
                Ok(_) => {},
                Err(e) => {
                    return Err(e);
                },
            }
            assert(self.output@.skip(out0.len() as int) =~= lit);
        } else if x == 45u8 || (48u8 <= x && x <= 57u8) {
            match self.number() {
                Ok(_) => {},
                Err(e) => {
                    return Err(e);
                },
            }
            assert(self.output@.skip(out0.len() as int) =~= b.subrange(at0, self.at as int));
        } else {
            return Err(JsonError::ExpectedValue);
        }
        assert(self.output@.take(out0.len() as int) =~= out0);
        Ok(())
    }

    /// One step of the grammar machine.
    fn step(&mut self, states: &mut Vec<u8>) -> (r: Result<bool, JsonError>)
        requires
            old(self).at <= old(self).input@.len(),
            valid_states(old(states)@),
        ensures
            final(self).same_input(old(self)),
            match r {
                Ok(done) => if done {
                    final(self).output@ == old(self).output@ && step_spec(old(self).input@, old(self).jsonc, old(self).at as int, old(states)@) == Ok::<Step, JsonError>(Step::Done)
                } else {
                    final(self).output@.len() >= old(self).output@.len()
                        && final(self).output@.take(old(self).output@.len() as int) == old(self).output@
                        && step_spec(old(self).input@, old(self).jsonc, old(self).at as int, old(states)@) == Ok::<Step, JsonError>(Step::Next {
                        at: final(self).at as int,
                        states: final(states)@,
                        emitted: final(self).written(old(self)),
                    })
                },
                Err(e) => step_spec(old(self).input@, old(self).jsonc, old(self).at as int, old(states)@) == Err::<Step, JsonError>(e),
            },
    {
        let ghost out0 = self.output@;
        let ghost b = self.input@;
        match self.whitespace() {
            Ok(_) => {},
            Err(e) => {
                return Err(e);
            },
        }
        let ghost w = self.at as int;
        let d = states.len() - 1;
        let top = states[d];
        proof {
            assert(d >= 1 ==> 2 <= states@[d as int] <= 9);
        }
        if top == 1 {
            if self.at == self.input.len() {
                return Ok(true);
            }
            return Err(JsonError::TrailingContent);
        }
        if top == 2 || top == 5 {
            let x = match self.peek() {
                Ok(x) => x,
                Err(e) => {
                    return Err(e);
                },
            };
            let close: u8 = if top == 2 {
                93u8
            } else {
                125u8
            };
            if x == close {
                match self.punctuation(close) {
                    Ok(_) => {},
                    Err(e) => {
                        return Err(e);
                    },
                }
                states.pop();
                assert(self.output@.skip(out0.len() as int) =~= seq![close]);
                assert(self.output@.take(out0.len() as int) =~= out0);
                return Ok(false);
            }
        }
        if top == 4 || top == 9 {
            let (close, next): (u8, u8) = if top == 4 {
                (93u8, 3u8)
            } else {
                (125u8, 6u8)
            };
            return match self.separator(states, close, next) {
                Ok(_) => Ok(false),
                Err(e) => Err(e),
            };
        }
        if top == 5 || top == 6 {
            match self.string() {
                Ok(_) => {},
                Err(e) => {
                    return Err(e);
                },
            }
            states.set(d, 7);
            assert(self.output@.skip(out0.len() as int) =~= b.subrange(w, self.at as int));
            assert(self.output@.take(out0.len() as int) =~= out0);
            return Ok(false);
        }
        if top == 7 {
            match self.punctuation(58u8) {
                Ok(_) => {},
                Err(e) => {
                    return Err(e);
                },
            }
            states.set(d, 8);
            assert(self.output@.skip(out0.len() as int) =~= seq![58u8]);
            assert(self.output@.take(out0.len() as int) =~= out0);
            return Ok(false);
        }
        match self.value(states) {
            Ok(_) => Ok(false),
            Err(e) => Err(e),
        }
    }
}

fn scan(input: &str, jsonc: bool) -> (r: Result<Vec<u8>, JsonError>)
    ensures
        match r {
            Ok(out) => minified(input.spec_bytes(), jsonc) == Ok::<Seq<u8>, JsonError>(out@),
            Err(e) => minified(input.spec_bytes(), jsonc) == Err::<Seq<u8>, JsonError>(e),
        },
{
    let mut parser = Parser { input: input.as_bytes(), at: 0, output: Vec::new(), jsonc };
    let ghost b = input.spec_bytes();
    let mut states: Vec<u8> = Vec::new();
    states.push(0u8);
    assert(states@ =~= seq![0u8]);
    loop
        invariant
            parser.input@ == b,
            b == input.spec_bytes(),
            parser.jsonc == jsonc,
            parser.at <= b.len(),
            valid_states(states@),
            minified(b, jsonc) == prepend(parser.output@, run(b, jsonc, parser.at as int, states@)),
        decreases b.len() - parser.at,
    {
        let ghost at0 = parser.at as int;
        let ghost out0 = parser.output@;
        let ghost st0 = states@;
        proof {
            lemma_step_progress(b, jsonc, at0, st0);
        }
        match parser.step(&mut states) {
            Ok(done) => {
                if done {
                    assert(run(b, jsonc, at0, st0) == Ok::<Seq<u8>, JsonError>(Seq::empty()));
                    assert(out0 + Seq::<u8>::empty() =~= out0);
                    return Ok(parser.output);
                }
                let ghost em = parser.output@.skip(out0.len() as int);
                proof {
                    assert(parser.output@ =~= out0 + em);
                    lemma_prepend_assoc(out0, em, run(b, jsonc, parser.at as int, states@));
                }
            },
            Err(e) => {
                return Err(e);
            },
        }
    }
}

/// Length of the minified JSON text, or why the input is refused.
pub fn json_len(input: &str) -> (r: Result<usize, JsonError>)
    ensures
        match r {
            Ok(n) => minified(input.spec_bytes(), false) is Ok && n == minified(input.spec_bytes(), false)->Ok_0.len(),
            Err(e) => minified(input.spec_bytes(), false) == Err::<Seq<u8>, JsonError>(e),
        },
{
    match scan_json(input) {
        Ok(out) => Ok(out.len()),
        Err(e) => Err(e),
    }
}

fn scan_json(input: &str) -> (r: Result<Vec<u8>, JsonError>)
    ensures
        match r {
            Ok(out) => minified(input.spec_bytes(), false) == Ok::<Seq<u8>, JsonError>(out@),
            Err(e) => minified(input.spec_bytes(), false) == Err::<Seq<u8>, JsonError>(e),
        },
{
    scan(input, false)
}

fn scan_jsonc(input: &str) -> (r: Result<Vec<u8>, JsonError>)
    ensures
        match r {
            Ok(out) => minified(input.spec_bytes(), true) == Ok::<Seq<u8>, JsonError>(out@),
            Err(e) => minified(input.spec_bytes(), true) == Err::<Seq<u8>, JsonError>(e),
        },
{
    scan(input, true)
}

/// Length of the JSON text converted from JSONC, or why the input is refused.
pub fn jsonc_len(input: &str) -> (r: Result<usize, JsonError>)
    ensures
        match r {
            Ok(n) => minified(input.spec_bytes(), true) is Ok && n == minified(input.spec_bytes(), true)->Ok_0.len(),
            Err(e) => minified(input.spec_bytes(), true) == Err::<Seq<u8>, JsonError>(e),
        },
{
    match scan_jsonc(input) {
        Ok(out) => Ok(out.len()),
        Err(e) => Err(e),
    }
}

/// Converts JSONC to minified JSON: comments and formatting whitespace go,
/// a trailing comma in a nonempty array or object is dropped, and strings,
/// numbers, key order and duplicate keys are kept byte for byte.
pub fn jsonc(input: &str) -> (r: Result<Vec<u8>, JsonError>)
    ensures
        match r {
            Ok(out) => minified(input.spec_bytes(), true) == Ok::<Seq<u8>, JsonError>(out@)
                && valid_utf8(out@),
            Err(e) => minified(input.spec_bytes(), true) == Err::<Seq<u8>, JsonError>(e),
        },
{
    proof {
        encode_utf8_valid_utf8(input@);
        lemma_minified_utf8(input.spec_bytes(), true);
    }
    scan_jsonc(input)
}

/// Validates JSON (RFC 8259, at most 128 nested arrays and objects) and
/// removes the space, tab, CR and LF bytes outside strings.
pub fn json(input: &str) -> (r: Result<Vec<u8>, JsonError>)
    ensures
        match r {
            Ok(out) => minified(input.spec_bytes(), false) == Ok::<Seq<u8>, JsonError>(out@)
                && valid_utf8(out@),
            Err(e) => minified(input.spec_bytes(), false) == Err::<Seq<u8>, JsonError>(e),
        },
{
    proof {
        encode_utf8_valid_utf8(input@);
        lemma_minified_utf8(input.spec_bytes(), false);
    }
    scan_json(input)
}

} // verus!
