//! Laws of JSON minification. Minified output is strict JSON: running the
//! strict machine over the output of `json` or `jsonc` accepts it and gives
//! it back unchanged. On strict JSON, `jsonc` and `json` agree byte for byte.
//! Strict minification removes exactly the whitespace outside strings.
//! Minifying never makes the text longer, and it turns valid UTF-8 into
//! valid UTF-8.
use vstd::prelude::*;
use crate::json::{
    after_value, close_step, comma_spec, digits_end, is_digit, is_json_space, lemma_step_progress,
    literal_at, minified, number_end, run, separator_step, step_spec, string_from, string_spec,
    valid_states, value_step, ws_end, Step,
};
use crate::sql::{lemma_after_ascii, prepend};
use crate::chars::{lemma_valid_ascii, lemma_valid_shaped, lemma_valid_slice, shaped};
use vstd::utf8::*;

verus! {

/// A byte that can follow a number in minified output: a comma or a closer.
pub open spec fn ends_number(x: u8) -> bool {
    x == 44u8 || x == 93u8 || x == 125u8
}

/// `o` holds `b[w..e]` at `k`.
pub open spec fn same_span(b: Seq<u8>, w: int, e: int, o: Seq<u8>, k: int) -> bool {
    &&& 0 <= w <= e <= b.len()
    &&& 0 <= k
    &&& k + (e - w) <= o.len()
    &&& o.subrange(k, k + (e - w)) == b.subrange(w, e)
}

proof fn lemma_span_byte(b: Seq<u8>, w: int, e: int, o: Seq<u8>, k: int, i: int)
    requires
        same_span(b, w, e, o, k),
        w <= i < e,
    ensures
        o[k + (i - w)] == b[i],
{
    assert(o.subrange(k, k + (e - w))[i - w] == b.subrange(w, e)[i - w]);
}

/// A string scan only reads the bytes of the string.
proof fn lemma_string_local(b: Seq<u8>, w: int, e: int, o: Seq<u8>, k: int, i: int)
    requires
        same_span(b, w, e, o, k),
        w <= i,
        string_from(b, i) == Ok::<int, crate::json::JsonError>(e),
    ensures
        string_from(o, k + (i - w)) == Ok::<int, crate::json::JsonError>(k + (e - w)),
    decreases b.len() - i,
{
    crate::json::lemma_string_from(b, i);
    lemma_span_byte(b, w, e, o, k, i);
    let x = b[i];
    if x == 34u8 {
    } else if x == 92u8 {
        let y = b[i + 1];
        if y == 117u8 {
            crate::json::lemma_string_from(b, i + 6);
            lemma_span_byte(b, w, e, o, k, i + 1);
            lemma_span_byte(b, w, e, o, k, i + 2);
            lemma_span_byte(b, w, e, o, k, i + 3);
            lemma_span_byte(b, w, e, o, k, i + 4);
            lemma_span_byte(b, w, e, o, k, i + 5);
            lemma_string_local(b, w, e, o, k, i + 6);
            assert(k + (i + 6 - w) == k + (i - w) + 6);
        } else {
            crate::json::lemma_string_from(b, i + 2);
            lemma_span_byte(b, w, e, o, k, i + 1);
            lemma_string_local(b, w, e, o, k, i + 2);
            assert(k + (i + 2 - w) == k + (i - w) + 2);
        }
    } else {
        crate::json::lemma_string_from(b, i + 1);
        lemma_string_local(b, w, e, o, k, i + 1);
        assert(k + (i + 1 - w) == k + (i - w) + 1);
    }
}

/// A run of digits that ends inside the span, or at its end where neither
/// side continues with a digit, ends at the same place on both sides.
proof fn lemma_digits_local(b: Seq<u8>, w: int, e: int, o: Seq<u8>, k: int, i: int)
    requires
        same_span(b, w, e, o, k),
        w <= i <= digits_end(b, i) <= e,
        digits_end(b, i) == e ==> (k + (e - w) == o.len() || !is_digit(o[k + (e - w)])),
    ensures
        digits_end(o, k + (i - w)) == k + (digits_end(b, i) - w),
    decreases b.len() - i,
{
    if i < e {
        lemma_span_byte(b, w, e, o, k, i);
        if is_digit(b[i]) {
            crate::json::lemma_digits_end(b, i + 1);
            lemma_digits_local(b, w, e, o, k, i + 1);
            assert(k + (i + 1 - w) == k + (i - w) + 1);
        }
    }
}

/// A number scan reads the bytes of the number and the byte after it, which
/// in minified output is a comma, a closer, or nothing.
proof fn lemma_number_local(b: Seq<u8>, w: int, e: int, o: Seq<u8>, k: int)
    requires
        same_span(b, w, e, o, k),
        w < b.len(),
        number_end(b, w) == Ok::<int, crate::json::JsonError>(e),
        k + (e - w) == o.len() || ends_number(o[k + (e - w)]),
    ensures
        number_end(o, k) == Ok::<int, crate::json::JsonError>(k + (e - w)),
{
    crate::json::lemma_number_end(b, w);
    let end_o = k + (e - w);
    // Bytes at the end of the number never continue it on the output side.
    assert(end_o < o.len() ==> !is_digit(o[end_o]) && o[end_o] != 46u8 && o[end_o] != 101u8
        && o[end_o] != 69u8 && o[end_o] != 43u8 && o[end_o] != 45u8);
    lemma_span_byte(b, w, e, o, k, w);
    let i1 = if b[w] == 45u8 {
        w + 1
    } else {
        w
    };
    let o1 = if o[k] == 45u8 {
        k + 1
    } else {
        k
    };
    assert(o1 == k + (i1 - w));
    crate::json::lemma_digits_end(b, i1);
    crate::json::lemma_digits_end(b, i1 + 1);
    assert(i1 < e);
    lemma_span_byte(b, w, e, o, k, i1);
    assert(o1 < o.len() && is_digit(o[o1]));
    let i2 = if b[i1] == 48u8 {
        i1 + 1
    } else {
        digits_end(b, i1)
    };
    let o2 = if o[o1] == 48u8 {
        o1 + 1
    } else {
        digits_end(o, o1)
    };
    if b[i1] != 48u8 {
        lemma_digits_local(b, w, e, o, k, i1);
    }
    assert(o2 == k + (i2 - w));
    assert(i2 <= e);
    if i2 < e {
        lemma_span_byte(b, w, e, o, k, i2);
    }
    let frac = i2 < b.len() && b[i2] == 46u8;
    let ofrac = o2 < o.len() && o[o2] == 46u8;
    assert(frac == ofrac);
    let i3 = if frac {
        digits_end(b, i2 + 1)
    } else {
        i2
    };
    let o3 = if ofrac {
        digits_end(o, o2 + 1)
    } else {
        o2
    };
    if frac {
        crate::json::lemma_digits_end(b, i2 + 1);
        assert(i3 > i2 + 1);
        lemma_span_byte(b, w, e, o, k, i2 + 1);
        lemma_digits_local(b, w, e, o, k, i2 + 1);
        assert(o3 == k + (i3 - w));
        assert(o3 > o2 + 1);
    }
    assert(o3 == k + (i3 - w));
    assert(i3 <= e);
    if i3 < e {
        lemma_span_byte(b, w, e, o, k, i3);
    }
    let exp = i3 < b.len() && (b[i3] == 101u8 || b[i3] == 69u8);
    let oexp = o3 < o.len() && (o[o3] == 101u8 || o[o3] == 69u8);
    assert(exp == oexp);
    if exp {
        if i3 + 1 < e {
            lemma_span_byte(b, w, e, o, k, i3 + 1);
        }
        let j = if i3 + 1 < b.len() && (b[i3 + 1] == 43u8 || b[i3 + 1] == 45u8) {
            i3 + 2
        } else {
            i3 + 1
        };
        let oj = if o3 + 1 < o.len() && (o[o3 + 1] == 43u8 || o[o3 + 1] == 45u8) {
            o3 + 2
        } else {
            o3 + 1
        };
        crate::json::lemma_digits_end(b, j);
        assert(digits_end(b, j) > j);
        assert(j < e);
        assert(oj == k + (j - w));
        lemma_digits_local(b, w, e, o, k, j);
        assert(e == digits_end(b, j));
    } else {
        assert(e == i3);
    }
}

/// After a finished value, whatever is written next starts with a comma or a closer.
proof fn lemma_after_value_output(b: Seq<u8>, jsonc: bool, at: int, states: Seq<u8>, rest: Seq<u8>)
    requires
        0 <= at <= b.len(),
        valid_states(states),
        states.last() == 1 || states.last() == 4 || states.last() == 9,
        run(b, jsonc, at, states) == Ok::<Seq<u8>, crate::json::JsonError>(rest),
    ensures
        rest.len() == 0 || ends_number(rest[0]),
{
    lemma_step_progress(b, jsonc, at, states);
    match step_spec(b, jsonc, at, states) {
        Ok(Step::Next { at: next, states: next_states, emitted }) => {
            if at < next <= b.len() {
                let w = ws_end(b, at, jsonc)->Ok_0;
                let top = states.last();
                assert(emitted.len() == 1 && ends_number(emitted[0]));
                let r2 = run(b, jsonc, next, next_states);
                assert(r2 is Ok);
                assert(rest == emitted + r2->Ok_0);
                assert(rest[0] == emitted[0]);
            }
        },
        _ => {},
    }
}

/// Every step writes something, and it never starts with JSON whitespace.
proof fn lemma_emitted_shape(b: Seq<u8>, jsonc: bool, at: int, states: Seq<u8>)
    requires
        0 <= at <= b.len(),
        valid_states(states),
    ensures
        step_spec(b, jsonc, at, states) matches Ok(Step::Next { emitted, .. }) ==> emitted.len() > 0
            && !is_json_space(emitted[0]),
{
    crate::json::lemma_ws_end(b, at, jsonc);
    if let Ok(w) = ws_end(b, at, jsonc) {
        crate::json::lemma_string_from(b, w + 1);
        if w < b.len() {
            crate::json::lemma_number_end(b, w);
            if let Ok(e) = string_spec(b, w) {
                assert(b.subrange(w, e)[0] == b[w]);
            }
            if let Ok(e) = string_from(b, w + 1) {
                assert(b.subrange(w, e)[0] == b[w]);
            }
            if let Ok(e) = number_end(b, w) {
                assert(b.subrange(w, e)[0] == b[w]);
            }
        }
    }
}

/// One step of any machine that writes `emitted` is repeated by the strict
/// machine over output that holds `emitted` at `k`.
proof fn lemma_step_strict(
    b: Seq<u8>,
    jsonc: bool,
    at: int,
    states: Seq<u8>,
    o: Seq<u8>,
    k: int,
    next: int,
    next_states: Seq<u8>,
    emitted: Seq<u8>,
)
    requires
        0 <= at <= b.len(),
        valid_states(states),
        step_spec(b, jsonc, at, states) == Ok::<Step, crate::json::JsonError>(
            Step::Next { at: next, states: next_states, emitted },
        ),
        0 <= k,
        k + emitted.len() <= o.len(),
        o.subrange(k, k + emitted.len()) == emitted,
        (next_states.last() == 1 || next_states.last() == 4 || next_states.last() == 9) ==> (k
            + emitted.len() == o.len() || ends_number(o[k + emitted.len()])),
    ensures
        step_spec(o, false, k, states) == Ok::<Step, crate::json::JsonError>(
            Step::Next { at: k + emitted.len(), states: next_states, emitted },
        ),
{
    lemma_emitted_shape(b, jsonc, at, states);
    crate::json::lemma_ws_end(b, at, jsonc);
    assert(o[k] == emitted[0]) by {
        assert(o.subrange(k, k + emitted.len())[0] == emitted[0]);
    }
    assert(ws_end(o, k, false) == Ok::<int, crate::json::JsonError>(k));
    let w = ws_end(b, at, jsonc)->Ok_0;
    let d = states.len() - 1;
    let top = states[d];
    assert(d >= 1 ==> 2 <= states[d] <= 9);
    if (top == 2 && b[w] == 93u8) || (top == 5 && b[w] == 125u8) {
    } else if top == 4 || top == 9 {
        let close: u8 = if top == 4 {
            93u8
        } else {
            125u8
        };
        if b[w] != close {
            let (trailing, v) = comma_spec(b, w, jsonc, close)->Ok_0;
            if !trailing {
                assert(o[k] == 44u8);
            }
        }
    } else if top == 5 || top == 6 {
        let e = string_spec(b, w)->Ok_0;
        crate::json::lemma_string_from(b, w + 1);
        assert(same_span(b, w, e, o, k));
        lemma_string_local(b, w, e, o, k, w + 1);
        assert(b.subrange(w, e)[0] == b[w]);
    } else if top == 7 {
    } else {
        let x = b[w];
        if x == 34u8 {
            let e = string_from(b, w + 1)->Ok_0;
            crate::json::lemma_string_from(b, w + 1);
            assert(same_span(b, w, e, o, k));
            lemma_string_local(b, w, e, o, k, w + 1);
        } else if x == 116u8 || x == 102u8 || x == 110u8 {
            assert(o.subrange(k, k + emitted.len()) == emitted);
        } else if x == 45u8 || is_digit(x) {
            let e = number_end(b, w)->Ok_0;
            crate::json::lemma_number_end(b, w);
            assert(same_span(b, w, e, o, k));
            lemma_number_local(b, w, e, o, k);
        }
    }
}

/// The strict machine, run over any text that continues with the output of a
/// run, accepts that continuation and gives it back.
proof fn lemma_run_strict(b: Seq<u8>, jsonc: bool, at: int, states: Seq<u8>, o: Seq<u8>, k: int)
    requires
        0 <= at <= b.len(),
        valid_states(states),
        0 <= k <= o.len(),
        run(b, jsonc, at, states) == Ok::<Seq<u8>, crate::json::JsonError>(o.subrange(k, o.len() as int)),
    ensures
        run(o, false, k, states) == Ok::<Seq<u8>, crate::json::JsonError>(o.subrange(k, o.len() as int)),
    decreases b.len() - at,
{
    lemma_step_progress(b, jsonc, at, states);
    lemma_emitted_shape(b, jsonc, at, states);
    let rest = o.subrange(k, o.len() as int);
    match step_spec(b, jsonc, at, states) {
        Ok(Step::Done) => {
            assert(rest.len() == 0);
            assert(k == o.len());
            assert(ws_end(o, k, false) == Ok::<int, crate::json::JsonError>(k));
        },
        Ok(Step::Next { at: next, states: next_states, emitted }) => {
            let r2 = run(b, jsonc, next, next_states)->Ok_0;
            assert(rest == emitted + r2);
            let k2 = k + emitted.len();
            assert(o.subrange(k, k2) =~= emitted) by {
                assert forall|j: int| 0 <= j < emitted.len() implies o.subrange(k, k2)[j] == emitted[j] by {
                    assert(rest[j] == emitted[j]);
                }
            }
            assert(o.subrange(k2, o.len() as int) =~= r2) by {
                assert forall|j: int| 0 <= j < r2.len() implies o.subrange(k2, o.len() as int)[j] == r2[j] by {
                    assert(rest[emitted.len() + j] == r2[j]);
                }
            }
            if next_states.last() == 1 || next_states.last() == 4 || next_states.last() == 9 {
                lemma_after_value_output(b, jsonc, next, next_states, r2);
                if r2.len() > 0 {
                    assert(o[k2] == o.subrange(k2, o.len() as int)[0]);
                }
            }
            lemma_step_strict(b, jsonc, at, states, o, k, next, next_states, emitted);
            lemma_run_strict(b, jsonc, next, next_states, o, k2);
        },
        Err(_) => {},
    }
}

/// The output of `json` and of `jsonc` is strict JSON that `json` gives
/// back unchanged: minifying is idempotent, and JSONC converts to JSON.
pub proof fn lemma_minified_is_strict_json(b: Seq<u8>, jsonc: bool)
    requires
        minified(b, jsonc) is Ok,
    ensures
        minified(minified(b, jsonc)->Ok_0, false) == minified(b, jsonc),
{
    let o = minified(b, jsonc)->Ok_0;
    assert(o.subrange(0, o.len() as int) =~= o);
    assert(valid_states(seq![0u8]));
    lemma_run_strict(b, jsonc, 0, seq![0u8], o, 0);
}

proof fn lemma_string_last(b: Seq<u8>, i: int)
    requires
        0 <= i,
    ensures
        string_from(b, i) matches Ok(e) ==> i < e <= b.len() && b[e - 1] == 34u8,
    decreases b.len() - i,
{
    if 0 <= i < b.len() {
        let x = b[i];
        if x != 34u8 && x >= 32u8 {
            if x == 92u8 {
                if i + 1 < b.len() {
                    lemma_string_last(b, i + 2);
                    if i + 5 < b.len() {
                        lemma_string_last(b, i + 6);
                    }
                }
            } else {
                lemma_string_last(b, i + 1);
            }
        }
    }
}

proof fn lemma_digits_last(b: Seq<u8>, i: int)
    requires
        0 <= i <= b.len(),
    ensures
        i <= digits_end(b, i) <= b.len(),
        digits_end(b, i) > i ==> is_digit(b[digits_end(b, i) - 1]),
    decreases b.len() - i,
{
    if i < b.len() && is_digit(b[i]) {
        lemma_digits_last(b, i + 1);
    }
}

/// A number ends with a digit.
proof fn lemma_number_last(b: Seq<u8>, at: int)
    requires
        0 <= at < b.len(),
    ensures
        number_end(b, at) matches Ok(e) ==> at < e <= b.len() && is_digit(b[e - 1]),
{
    crate::json::lemma_number_end(b, at);
    let i = if b[at] == 45u8 {
        at + 1
    } else {
        at
    };
    if i < b.len() && is_digit(b[i]) {
        lemma_digits_last(b, i);
        let i2 = if b[i] == 48u8 {
            i + 1
        } else {
            digits_end(b, i)
        };
        if i2 < b.len() && b[i2] == 46u8 {
            lemma_digits_last(b, i2 + 1);
        }
        let i3 = if i2 < b.len() && b[i2] == 46u8 {
            digits_end(b, i2 + 1)
        } else {
            i2
        };
        if i3 < b.len() {
            let j = if i3 + 1 < b.len() && (b[i3 + 1] == 43u8 || b[i3 + 1] == 45u8) {
                i3 + 2
            } else {
                i3 + 1
            };
            lemma_digits_last(b, j);
        }
    }
}

/// The text between two ASCII bytes of valid UTF-8, both included, is valid
/// UTF-8.
proof fn lemma_ascii_ends_utf8(b: Seq<u8>, w: int, e: int)
    requires
        valid_utf8(b),
        shaped(b),
        0 <= w < e <= b.len(),
        b[w] < 128,
        b[e - 1] < 128,
    ensures
        valid_utf8(b.subrange(w, e)),
{
    lemma_after_ascii(b, e);
    lemma_valid_slice(b, w, e);
}

/// Each step writes valid UTF-8: ASCII punctuation and literals, or strings
/// and numbers copied from the input, which start and end with ASCII bytes.
proof fn lemma_emitted_utf8(b: Seq<u8>, jsonc: bool, at: int, states: Seq<u8>)
    requires
        valid_utf8(b),
        shaped(b),
        0 <= at <= b.len(),
        valid_states(states),
    ensures
        step_spec(b, jsonc, at, states) matches Ok(Step::Next { emitted, .. }) ==> valid_utf8(
            emitted,
        ),
{
    crate::json::lemma_ws_end(b, at, jsonc);
    if let Ok(w) = ws_end(b, at, jsonc) {
        if w < b.len() {
            lemma_string_last(b, w + 1);
            lemma_number_last(b, w);
            if let Ok(e) = string_from(b, w + 1) {
                if b[w] == 34u8 {
                    lemma_ascii_ends_utf8(b, w, e);
                }
            }
            if let Ok(e) = number_end(b, w) {
                lemma_ascii_ends_utf8(b, w, e);
            }
            if b[w] == 91u8 || b[w] == 123u8 {
                lemma_valid_ascii(seq![b[w]]);
            }
            lemma_valid_ascii(seq![44u8]);
            lemma_valid_ascii(seq![116u8, 114u8, 117u8, 101u8]);
            lemma_valid_ascii(seq![102u8, 97u8, 108u8, 115u8, 101u8]);
            lemma_valid_ascii(seq![110u8, 117u8, 108u8, 108u8]);
            lemma_valid_ascii(seq![58u8]);
            lemma_valid_ascii(seq![93u8]);
            lemma_valid_ascii(seq![125u8]);
        }
    }
}

proof fn lemma_run_utf8(b: Seq<u8>, jsonc: bool, at: int, states: Seq<u8>)
    requires
        valid_utf8(b),
        shaped(b),
        0 <= at <= b.len(),
        valid_states(states),
    ensures
        run(b, jsonc, at, states) matches Ok(o) ==> valid_utf8(o),
    decreases b.len() - at,
{
    lemma_valid_ascii(Seq::<u8>::empty());
    lemma_step_progress(b, jsonc, at, states);
    lemma_emitted_utf8(b, jsonc, at, states);
    if let Ok(Step::Next { at: next, states: next_states, emitted }) = step_spec(b, jsonc, at, states) {
        lemma_run_utf8(b, jsonc, next, next_states);
        if let Ok(rest) = run(b, jsonc, next, next_states) {
            valid_utf8_concat(emitted, rest);
        }
    }
}

/// Minifying valid UTF-8 gives valid UTF-8.
pub proof fn lemma_minified_utf8(b: Seq<u8>, jsonc: bool)
    requires
        valid_utf8(b),
    ensures
        minified(b, jsonc) matches Ok(o) ==> valid_utf8(o),
{
    lemma_valid_shaped(b);
    assert(valid_states(seq![0u8]));
    lemma_run_utf8(b, jsonc, 0, seq![0u8]);
}

/// Each step writes no more bytes than it reads.
proof fn lemma_emitted_len(b: Seq<u8>, jsonc: bool, at: int, states: Seq<u8>)
    requires
        0 <= at <= b.len(),
        valid_states(states),
    ensures
        step_spec(b, jsonc, at, states) matches Ok(Step::Next { at: next, emitted, .. })
            ==> emitted.len() <= next - at,
{
    crate::json::lemma_ws_end(b, at, jsonc);
    if let Ok(w) = ws_end(b, at, jsonc) {
        crate::json::lemma_string_from(b, w + 1);
        if w < b.len() {
            crate::json::lemma_ws_end(b, w + 1, jsonc);
            crate::json::lemma_number_end(b, w);
        }
    }
}

proof fn lemma_run_not_longer(b: Seq<u8>, jsonc: bool, at: int, states: Seq<u8>)
    requires
        0 <= at <= b.len(),
        valid_states(states),
    ensures
        run(b, jsonc, at, states) matches Ok(o) ==> o.len() <= b.len() - at,
    decreases b.len() - at,
{
    lemma_step_progress(b, jsonc, at, states);
    lemma_emitted_len(b, jsonc, at, states);
    if let Ok(Step::Next { at: next, states: next_states, emitted }) = step_spec(b, jsonc, at, states) {
        lemma_run_not_longer(b, jsonc, next, next_states);
    }
}

/// Minifying never makes the text longer.
pub proof fn lemma_minified_not_longer(b: Seq<u8>, jsonc: bool)
    ensures
        minified(b, jsonc) matches Ok(o) ==> o.len() <= b.len(),
{
    assert(valid_states(seq![0u8]));
    lemma_run_not_longer(b, jsonc, 0, seq![0u8]);
}

/// The text from `i` on with the JSON whitespace outside strings removed;
/// `in_string` tells whether `i` is inside a string, where a backslash
/// always takes the next byte with it.
pub open spec fn outside_strings(b: Seq<u8>, i: int, in_string: bool) -> Seq<u8>
    decreases b.len() - i,
{
    if 0 <= i < b.len() {
        let x = b[i];
        if in_string {
            if x == 92u8 && i + 1 < b.len() {
                seq![x, b[i + 1]] + outside_strings(b, i + 2, true)
            } else {
                seq![x] + outside_strings(b, i + 1, x != 34u8)
            }
        } else if is_json_space(x) {
            outside_strings(b, i + 1, false)
        } else {
            seq![x] + outside_strings(b, i + 1, x == 34u8)
        }
    } else {
        Seq::empty()
    }
}

/// The text without the space, tab, CR and LF bytes that stand outside
/// strings.
pub open spec fn without_json_space(b: Seq<u8>) -> Seq<u8> {
    outside_strings(b, 0, false)
}

/// Bytes outside strings that are neither whitespace nor a quote are kept.
proof fn lemma_outside_copy(b: Seq<u8>, x: int, y: int)
    requires
        0 <= x <= y <= b.len(),
        forall|k: int| x <= k < y ==> !is_json_space(b[k]) && b[k] != 34u8,
    ensures
        outside_strings(b, x, false) == b.subrange(x, y) + outside_strings(b, y, false),
    decreases y - x,
{
    if x < y {
        lemma_outside_copy(b, x + 1, y);
        assert(b.subrange(x, y) =~= seq![b[x]] + b.subrange(x + 1, y));
    } else {
        assert(b.subrange(x, y) =~= Seq::<u8>::empty());
    }
}

/// A string is kept whole, escapes included.
proof fn lemma_outside_string(b: Seq<u8>, i: int)
    requires
        0 <= i,
        string_from(b, i) is Ok,
    ensures
        outside_strings(b, i, true) == b.subrange(i, string_from(b, i)->Ok_0) + outside_strings(
            b,
            string_from(b, i)->Ok_0,
            false,
        ),
    decreases b.len() - i,
{
    lemma_string_last(b, i);
    let e = string_from(b, i)->Ok_0;
    let x = b[i];
    if x == 34u8 {
        assert(b.subrange(i, e) =~= seq![x]);
    } else if x == 92u8 {
        let y = b[i + 1];
        if y == 117u8 {
            lemma_string_last(b, i + 6);
            lemma_outside_string(b, i + 6);
            assert(outside_strings(b, i + 2, true) == seq![b[i + 2]] + outside_strings(b, i + 3, true));
            assert(outside_strings(b, i + 3, true) == seq![b[i + 3]] + outside_strings(b, i + 4, true));
            assert(outside_strings(b, i + 4, true) == seq![b[i + 4]] + outside_strings(b, i + 5, true));
            assert(outside_strings(b, i + 5, true) == seq![b[i + 5]] + outside_strings(b, i + 6, true));
            assert(b.subrange(i, e) =~= seq![x, y] + seq![b[i + 2]] + seq![b[i + 3]] + seq![b[i + 4]]
                + seq![b[i + 5]] + b.subrange(i + 6, e));
        } else {
            lemma_string_last(b, i + 2);
            lemma_outside_string(b, i + 2);
            assert(b.subrange(i, e) =~= seq![x, y] + b.subrange(i + 2, e));
        }
    } else {
        lemma_string_last(b, i + 1);
        lemma_outside_string(b, i + 1);
        assert(b.subrange(i, e) =~= seq![x] + b.subrange(i + 1, e));
    }
}

/// Skipped whitespace is whitespace outside strings.
proof fn lemma_outside_ws(b: Seq<u8>, at: int)
    requires
        0 <= at <= b.len(),
        ws_end(b, at, false) is Ok,
    ensures
        outside_strings(b, at, false) == outside_strings(b, ws_end(b, at, false)->Ok_0, false),
    decreases b.len() - at,
{
    if at < b.len() && is_json_space(b[at]) {
        lemma_outside_ws(b, at + 1);
    }
}

/// A number is made of digits, signs, points and exponent letters.
proof fn lemma_number_bytes(b: Seq<u8>, at: int)
    requires
        0 <= at < b.len(),
        number_end(b, at) is Ok,
    ensures
        forall|k: int| at <= k < number_end(b, at)->Ok_0 ==> !is_json_space(b[k]) && b[k] != 34u8,
{
    let e = number_end(b, at)->Ok_0;
    lemma_number_last(b, at);
    let i = if b[at] == 45u8 {
        at + 1
    } else {
        at
    };
    lemma_digits_all(b, i);
    let i2 = if b[i] == 48u8 {
        i + 1
    } else {
        digits_end(b, i)
    };
    if i2 < b.len() && b[i2] == 46u8 {
        lemma_digits_all(b, i2 + 1);
    }
    let i3 = if i2 < b.len() && b[i2] == 46u8 {
        digits_end(b, i2 + 1)
    } else {
        i2
    };
    lemma_digits_last(b, i);
    if i2 < b.len() && b[i2] == 46u8 {
        lemma_digits_last(b, i2 + 1);
    }
    if i3 < b.len() && (b[i3] == 101u8 || b[i3] == 69u8) {
        let j = if i3 + 1 < b.len() && (b[i3 + 1] == 43u8 || b[i3 + 1] == 45u8) {
            i3 + 2
        } else {
            i3 + 1
        };
        lemma_digits_all(b, j);
        lemma_digits_last(b, j);
    }
}

proof fn lemma_digits_all(b: Seq<u8>, i: int)
    requires
        0 <= i <= b.len(),
    ensures
        forall|k: int| i <= k < digits_end(b, i) ==> is_digit(b[k]),
    decreases b.len() - i,
{
    if i < b.len() && is_digit(b[i]) {
        lemma_digits_all(b, i + 1);
    }
}

/// Each step of the strict machine writes exactly what the whitespace
/// filter keeps of the bytes it reads.
proof fn lemma_step_outside(b: Seq<u8>, at: int, states: Seq<u8>)
    requires
        0 <= at <= b.len(),
        valid_states(states),
    ensures
        step_spec(b, false, at, states) matches Ok(Step::Next { at: next, emitted, .. })
            ==> outside_strings(b, at, false) == emitted + outside_strings(b, next, false),
        step_spec(b, false, at, states) matches Ok(Step::Done) ==> outside_strings(b, at, false)
            == Seq::<u8>::empty(),
{
    crate::json::lemma_ws_end(b, at, false);
    if let Ok(w) = ws_end(b, at, false) {
        lemma_outside_ws(b, at);
        if w < b.len() {
            let x = b[w];
            if let Ok(e) = string_from(b, w + 1) {
                if x == 34u8 {
                    lemma_outside_string(b, w + 1);
                    lemma_string_last(b, w + 1);
                    assert(b.subrange(w, e) =~= seq![x] + b.subrange(w + 1, e));
                }
            }
            if !is_json_space(x) && x != 34u8 {
                lemma_outside_copy(b, w, w + 1);
                assert(b.subrange(w, w + 1) =~= seq![x]);
            }
            if x == 116u8 || x == 102u8 || x == 110u8 {
                let literal = if x == 116u8 {
                    seq![116u8, 114u8, 117u8, 101u8]
                } else if x == 102u8 {
                    seq![102u8, 97u8, 108u8, 115u8, 101u8]
                } else {
                    seq![110u8, 117u8, 108u8, 108u8]
                };
                if literal_at(b, w, literal) {
                    assert forall|k: int| w <= k < w + literal.len() implies !is_json_space(b[k])
                        && b[k] != 34u8 by {
                        assert(b[k] == b.subrange(w, w + literal.len())[k - w]);
                    }
                    lemma_outside_copy(b, w, w + literal.len());
                }
            }
            if x == 45u8 || is_digit(x) {
                if number_end(b, w) is Ok {
                    lemma_number_bytes(b, w);
                    lemma_number_last(b, w);
                    lemma_outside_copy(b, w, number_end(b, w)->Ok_0);
                }
            }
        }
    }
}

proof fn lemma_run_outside(b: Seq<u8>, at: int, states: Seq<u8>)
    requires
        0 <= at <= b.len(),
        valid_states(states),
    ensures
        run(b, false, at, states) matches Ok(o) ==> o == outside_strings(b, at, false),
    decreases b.len() - at,
{
    lemma_step_progress(b, false, at, states);
    lemma_step_outside(b, at, states);
    if let Ok(Step::Next { at: next, states: next_states, emitted }) = step_spec(b, false, at, states) {
        lemma_run_outside(b, next, next_states);
    }
}

/// Strict minification removes the space, tab, CR and LF bytes outside
/// strings, and nothing else.
pub proof fn lemma_json_removes_only_whitespace(b: Seq<u8>)
    ensures
        minified(b, false) matches Ok(o) ==> o == without_json_space(b),
{
    assert(valid_states(seq![0u8]));
    lemma_run_outside(b, 0, seq![0u8]);
}

/// Where strict scanning stops at something other than a `/`, comment-aware
/// scanning stops at the same place.
proof fn lemma_ws_end_no_comment(b: Seq<u8>, at: int)
    requires
        0 <= at <= b.len(),
        ws_end(b, at, false) is Ok,
        ws_end(b, at, false)->Ok_0 == b.len() || b[ws_end(b, at, false)->Ok_0] != 47u8,
    ensures
        ws_end(b, at, true) == ws_end(b, at, false),
    decreases b.len() - at,
{
    if at < b.len() && is_json_space(b[at]) {
        lemma_ws_end_no_comment(b, at + 1);
    }
}

/// A strict step that succeeds does not stop its whitespace at a `/`.
proof fn lemma_strict_step_no_slash(b: Seq<u8>, at: int, states: Seq<u8>)
    requires
        0 <= at <= b.len(),
        valid_states(states),
        step_spec(b, false, at, states) is Ok,
    ensures
        ws_end(b, at, false) is Ok,
        ws_end(b, at, false)->Ok_0 == b.len() || b[ws_end(b, at, false)->Ok_0] != 47u8,
{
    crate::json::lemma_ws_end(b, at, false);
    let w = ws_end(b, at, false)->Ok_0;
    if w < b.len() && b[w] == 47u8 {
        let d = states.len() - 1;
        assert(d >= 1 ==> 2 <= states[d] <= 9);
        assert(step_spec(b, false, at, states) is Err);
    }
}

/// Two starting points whose whitespace ends at the same place run the same.
proof fn lemma_run_same_start(b: Seq<u8>, jsonc: bool, a1: int, a2: int, states: Seq<u8>)
    requires
        0 <= a1 <= b.len(),
        0 <= a2 <= b.len(),
        valid_states(states),
        ws_end(b, a1, jsonc) == ws_end(b, a2, jsonc),
    ensures
        run(b, jsonc, a1, states) == run(b, jsonc, a2, states),
{
    lemma_step_progress(b, jsonc, a1, states);
    lemma_step_progress(b, jsonc, a2, states);
    assert(step_spec(b, jsonc, a1, states) == step_spec(b, jsonc, a2, states));
}

proof fn lemma_run_jsonc_agrees(b: Seq<u8>, at: int, states: Seq<u8>)
    requires
        0 <= at <= b.len(),
        valid_states(states),
        run(b, false, at, states) is Ok,
    ensures
        run(b, true, at, states) == run(b, false, at, states),
    decreases b.len() - at,
{
    lemma_step_progress(b, false, at, states);
    lemma_step_progress(b, true, at, states);
    assert(step_spec(b, false, at, states) is Ok);
    lemma_strict_step_no_slash(b, at, states);
    lemma_ws_end_no_comment(b, at);
    let w = ws_end(b, at, false)->Ok_0;
    let d = states.len() - 1;
    let top = states[d];
    assert(d >= 1 ==> 2 <= states[d] <= 9);
    crate::json::lemma_ws_end(b, at, false);
    if (top == 4 || top == 9) && w < b.len() && b[w] != (if top == 4 {
        93u8
    } else {
        125u8
    }) {
        // A comma: JSONC looks ahead for a trailing comma, strict JSON does not.
        let close: u8 = if top == 4 {
            93u8
        } else {
            125u8
        };
        let next: u8 = if top == 4 {
            3u8
        } else {
            6u8
        };
        assert(b[w] == 44u8);
        let st2 = states.update(d, next);
        assert(step_spec(b, false, at, states) == Ok::<Step, crate::json::JsonError>(
            Step::Next { at: w + 1, states: st2, emitted: seq![44u8] },
        ));
        crate::json::lemma_ws_end(b, w + 1, false);
        let rest = run(b, false, w + 1, st2);
        assert(rest is Ok);
        lemma_step_progress(b, false, w + 1, st2);
        assert(step_spec(b, false, w + 1, st2) is Ok);
        lemma_strict_step_no_slash(b, w + 1, st2);
        lemma_ws_end_no_comment(b, w + 1);
        let v = ws_end(b, w + 1, false)->Ok_0;
        assert(v < b.len());
        assert(b[v] != close);
        assert(comma_spec(b, w, true, close) == Ok::<(bool, int), crate::json::JsonError>(
            (false, v),
        ));
        assert(step_spec(b, true, at, states) == Ok::<Step, crate::json::JsonError>(
            Step::Next { at: v, states: st2, emitted: seq![44u8] },
        ));
        assert(!is_json_space(b[v]));
        assert(ws_end(b, v, false) == Ok::<int, crate::json::JsonError>(v));
        lemma_run_same_start(b, false, w + 1, v, st2);
        lemma_run_jsonc_agrees(b, v, st2);
        lemma_ws_end_no_comment(b, v);
    } else {
        assert(step_spec(b, true, at, states) == step_spec(b, false, at, states));
        if let Ok(Step::Next { at: next, states: next_states, .. }) = step_spec(b, false, at, states) {
            lemma_run_jsonc_agrees(b, next, next_states);
        }
    }
}

/// On strict JSON, JSONC conversion and strict minification agree byte for
/// byte.
pub proof fn lemma_jsonc_agrees_with_json(b: Seq<u8>)
    requires
        minified(b, false) is Ok,
    ensures
        minified(b, true) == minified(b, false),
{
    assert(valid_states(seq![0u8]));
    lemma_run_jsonc_agrees(b, 0, seq![0u8]);
}

} // verus!
