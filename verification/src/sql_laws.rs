//! Laws of SQL compaction: it never makes the text longer, it turns valid
//! UTF-8 into valid UTF-8, and compacting its output again changes nothing.
//!
//! Idempotence rests on a simulation: every token of the input is copied to
//! the output, is scanned there as the same token (quoted texts, dollar tags
//! and the context before a token are found again), and is separated from
//! the next one by one space exactly where the input had whitespace or
//! comments between them.
use vstd::prelude::*;
use vstd::utf8::*;
use crate::chars::{
    boundary, char_complete, lemma_ascii_scalar, lemma_step, lemma_step_within, lemma_valid_ascii,
    lemma_valid_shaped, lemma_valid_slice, lemma_ws_width, lemma_ws_width_local, shaped, width,
    ws_width,
};
use crate::sql::{
    block_comment_end, compacted, dollar_close, dollar_end_spec, dollar_tag_end, escape_prefix,
    ident_before, is_ident_byte, is_tag_byte, lead_before, lemma_after_ascii,
    lemma_block_comment_end, lemma_line_comment_end, line_comment_end, pair_at, quoted_from,
    quoted_token, sql_from, token_end, SqlError,
};

verus! {

proof fn lemma_sql_from_shorter(b: Seq<u8>, i: int, pending: bool, started: bool)
    requires
        0 <= i <= b.len(),
    ensures
        sql_from(b, i, pending, started) matches Ok(r) ==> r.len() <= b.len() - i + (if pending
            && started {
            1int
        } else {
            0int
        }),
    decreases b.len() - i,
{
    if 0 <= i < b.len() {
        if ws_width(b, i) > 0 && i + ws_width(b, i) <= b.len() {
            lemma_sql_from_shorter(b, i + ws_width(b, i), true, started);
        } else if pair_at(b, i, 45u8, 45u8) {
            lemma_line_comment_end(b, i + 2);
            lemma_sql_from_shorter(b, line_comment_end(b, i + 2), true, started);
        } else if pair_at(b, i, 47u8, 42u8) {
            lemma_block_comment_end(b, i + 2, 1);
            let (j, depth) = block_comment_end(b, i + 2, 1);
            lemma_sql_from_shorter(b, j, true, started);
        } else {
            if let Ok(end) = token_end(b, i) {
                if i < end <= b.len() {
                    lemma_sql_from_shorter(b, end, false, true);
                }
            }
        }
    }
}

/// Compaction never makes SQL text longer.
pub proof fn lemma_compacted_not_longer(b: Seq<u8>)
    ensures
        compacted(b) matches Ok(out) ==> out.len() <= b.len(),
{
    lemma_sql_from_shorter(b, 0, false, false);
}

/// The character at `x` starts a token: it is neither whitespace nor the
/// start of a comment.
spec fn token_start(b: Seq<u8>, x: int) -> bool {
    &&& 0 <= x < b.len()
    &&& !(ws_width(b, x) > 0 && x + ws_width(b, x) <= b.len())
    &&& !pair_at(b, x, 45u8, 45u8)
    &&& !pair_at(b, x, 47u8, 42u8)
}

proof fn lemma_quoted_bounds(b: Seq<u8>, x: int, close: u8, escape: bool)
    requires
        0 <= x,
    ensures
        quoted_from(b, x, close, escape) matches Some(e) ==> x < e <= b.len() && b[e - 1] == close
            && (e == b.len() || b[e] != close),
    decreases b.len() - x,
{
    if 0 <= x < b.len() {
        if escape && b[x] == 92u8 {
            if x + 2 <= b.len() {
                lemma_quoted_bounds(b, x + 2, close, escape);
            }
        } else if b[x] == close {
            if x + 1 < b.len() && b[x + 1] == close {
                lemma_quoted_bounds(b, x + 2, close, escape);
            }
        } else {
            lemma_quoted_bounds(b, x + 1, close, escape);
        }
    }
}

/// A quoted text is found again wherever its bytes are copied, as long as
/// the copy is not followed by another closing byte.
proof fn lemma_quoted_local(b: Seq<u8>, x: int, close: u8, escape: bool, o: Seq<u8>, y: int)
    requires
        0 <= x,
        0 <= y,
        quoted_from(b, x, close, escape) is Some,
        y + (quoted_from(b, x, close, escape)->0 - x) <= o.len(),
        forall|k: int| x <= k < quoted_from(b, x, close, escape)->0 ==> o[y + k - x] == b[k],
        y + (quoted_from(b, x, close, escape)->0 - x) == o.len() || o[y + (quoted_from(
            b,
            x,
            close,
            escape,
        )->0 - x)] != close,
    ensures
        quoted_from(o, y, close, escape) == Some(y + (quoted_from(b, x, close, escape)->0 - x)),
    decreases b.len() - x,
{
    let e = quoted_from(b, x, close, escape)->0;
    lemma_quoted_bounds(b, x, close, escape);
    assert(o[y] == b[x]);
    if escape && b[x] == 92u8 {
        lemma_quoted_bounds(b, x + 2, close, escape);
        lemma_quoted_local(b, x + 2, close, escape, o, y + 2);
    } else if b[x] == close {
        if x + 1 < b.len() && b[x + 1] == close {
            lemma_quoted_bounds(b, x + 2, close, escape);
            assert(o[y + 1] == b[x + 1]);
            lemma_quoted_local(b, x + 2, close, escape, o, y + 2);
        }
    } else {
        lemma_quoted_bounds(b, x + 1, close, escape);
        lemma_quoted_local(b, x + 1, close, escape, o, y + 1);
    }
}

proof fn lemma_tag_bounds(b: Seq<u8>, start: int, t: int)
    requires
        0 <= t,
    ensures
        dollar_tag_end(b, start, t) matches Some(te) ==> t <= te < b.len() && b[te] == 36u8,
    decreases b.len() - t,
{
    if 0 <= t < b.len() && b[t] != 36u8 && !(!is_tag_byte(b[t], t == start + 1) || ws_width(b, t)
        > 0) && t + width(b[t]) <= b.len() {
        lemma_tag_bounds(b, start, t + width(b[t]));
    }
}

/// A dollar-quote tag is found again wherever its bytes are copied.
proof fn lemma_tag_local(b: Seq<u8>, start: int, t: int, o: Seq<u8>, ostart: int, y: int)
    requires
        0 <= t,
        0 <= y,
        y - ostart == t - start,
        dollar_tag_end(b, start, t) is Some,
        y + (dollar_tag_end(b, start, t)->0 - t) < o.len(),
        forall|k: int| t <= k <= dollar_tag_end(b, start, t)->0 ==> o[y + k - t] == b[k],
    ensures
        dollar_tag_end(o, ostart, y) == Some(y + (dollar_tag_end(b, start, t)->0 - t)),
    decreases b.len() - t,
{
    let te = dollar_tag_end(b, start, t)->0;
    lemma_tag_bounds(b, start, t);
    assert(o[y] == b[t]);
    if b[t] != 36u8 {
        let w = width(b[t]);
        lemma_tag_bounds(b, start, t + w);
        lemma_ws_width_local(b, t, o, y);
        lemma_tag_local(b, start, t + w, o, ostart, y + w);
    }
}

proof fn lemma_close_bounds(b: Seq<u8>, x: int, s: int, m: int)
    requires
        0 <= x,
    ensures
        dollar_close(b, x, s, m) matches Some(e) ==> x + m <= e <= b.len() && 0 < m
            && b.subrange(e - m, e) == b.subrange(s, s + m),
    decreases b.len() - x,
{
    if 0 <= x && 0 < m && x + m <= b.len() {
        if b.subrange(x, x + m) != b.subrange(s, s + m) {
            lemma_close_bounds(b, x + 1, s, m);
        }
    }
}

/// The closing tag of a dollar-quoted string is found again wherever the
/// string is copied.
proof fn lemma_close_local(b: Seq<u8>, x: int, s: int, m: int, o: Seq<u8>, y: int, os: int)
    requires
        0 <= x,
        0 <= y,
        0 <= s,
        0 <= os,
        s + m <= b.len(),
        os + m <= o.len(),
        dollar_close(b, x, s, m) is Some,
        y + (dollar_close(b, x, s, m)->0 - x) <= o.len(),
        forall|k: int| x <= k < dollar_close(b, x, s, m)->0 ==> o[y + k - x] == b[k],
        forall|k: int| s <= k < s + m ==> o[os + k - s] == b[k],
    ensures
        dollar_close(o, y, os, m) == Some(y + (dollar_close(b, x, s, m)->0 - x)),
    decreases b.len() - x,
{
    let e = dollar_close(b, x, s, m)->0;
    lemma_close_bounds(b, x, s, m);
    if b.subrange(x, x + m) == b.subrange(s, s + m) {
        assert(o.subrange(y, y + m) =~= o.subrange(os, os + m)) by {
            assert forall|k: int| 0 <= k < m implies #[trigger] o.subrange(y, y + m)[k] == o.subrange(
                os,
                os + m,
            )[k] by {
                assert(o[y + (x + k) - x] == b[x + k]);
                assert(o[os + (s + k) - s] == b[s + k]);
                assert(b.subrange(x, x + m)[k] == b.subrange(s, s + m)[k]);
            }
        }
    } else {
        lemma_close_bounds(b, x + 1, s, m);
        assert(exists|k: int| 0 <= k < m && #[trigger] b.subrange(x, x + m)[k] != b.subrange(s, s + m)[k]) by {
            if forall|k: int| 0 <= k < m ==> #[trigger] b.subrange(x, x + m)[k] == b.subrange(s, s + m)[k] {
                assert(b.subrange(x, x + m) =~= b.subrange(s, s + m));
            }
        }
        let k0 = choose|k: int| 0 <= k < m && #[trigger] b.subrange(x, x + m)[k] != b.subrange(s, s + m)[k];
        assert(o[y + (x + k0) - x] == b[x + k0]);
        assert(o[os + (s + k0) - s] == b[s + k0]);
        assert(o.subrange(y, y + m)[k0] != o.subrange(os, os + m)[k0]);
        lemma_close_local(b, x + 1, s, m, o, y + 1, os);
    }
}

/// What is known of a token: it ends after its start, inside the text, at a
/// character boundary, and a token longer than one byte never ends with `E`
/// or `e`.
proof fn lemma_token_facts(b: Seq<u8>, i: int)
    requires
        shaped(b),
        boundary(b, i),
        i < b.len(),
        token_end(b, i) is Ok,
    ensures
        i < token_end(b, i)->Ok_0 <= b.len(),
        boundary(b, token_end(b, i)->Ok_0),
        token_end(b, i)->Ok_0 - i > 1 ==> b[token_end(b, i)->Ok_0 - 1] != 69u8 && b[token_end(
            b,
            i,
        )->Ok_0 - 1] != 101u8,
        width(b[i]) <= token_end(b, i)->Ok_0 - i,
{
    lemma_step(b, i);
    let x = b[i];
    let e = token_end(b, i)->Ok_0;
    if x == 39u8 || x == 34u8 || x == 96u8 || x == 91u8 {
        let close = if x == 91u8 {
            93u8
        } else {
            x
        };
        let escape = x == 39u8 && escape_prefix(b, i);
        lemma_quoted_bounds(b, i + 1, close, escape);
        assert(quoted_from(b, i + 1, close, escape) == Some(e));
        lemma_after_ascii(b, e);
    } else if x == 36u8 {
        if dollar_end_spec(b, i) == Ok::<int, SqlError>(0) {
            lemma_after_ascii(b, i + 1);
        } else {
            let te = dollar_tag_end(b, i, i + 1)->0;
            lemma_tag_bounds(b, i, i + 1);
            lemma_close_bounds(b, te + 1, i, te - i + 1);
            let m = te - i + 1;
            assert(b.subrange(e - m, e)[m - 1] == b.subrange(i, i + m)[m - 1]);
            lemma_after_ascii(b, e);
        }
    } else {
        assert(char_complete(b, i));
        if width(x) > 1 {
            assert(is_continuation_byte(b[i + width(x) - 1]));
        }
    }
}

/// The first byte that compaction writes from position `x` on.
proof fn lemma_first(b: Seq<u8>, x: int, pending: bool, started: bool)
    requires
        shaped(b),
        boundary(b, x),
        sql_from(b, x, pending, started) is Ok,
    ensures
        x == b.len() ==> sql_from(b, x, pending, started)->Ok_0.len() == 0,
        token_start(b, x) ==> sql_from(b, x, pending, started)->Ok_0.len() > 0 && sql_from(
            b,
            x,
            pending,
            started,
        )->Ok_0[0] == (if pending && started {
            32u8
        } else {
            b[x]
        }),
        (pending && started) || (x < b.len() && !token_start(b, x) && started) ==> sql_from(
            b,
            x,
            pending,
            started,
        )->Ok_0.len() == 0 || sql_from(b, x, pending, started)->Ok_0[0] == 32u8,
    decreases b.len() - x,
{
    if x < b.len() {
        lemma_step(b, x);
        lemma_ws_width(b, x);
        if ws_width(b, x) > 0 && x + ws_width(b, x) <= b.len() {
            lemma_first(b, x + ws_width(b, x), true, started);
        } else if pair_at(b, x, 45u8, 45u8) {
            let j = line_comment_end(b, x + 2);
            lemma_line_comment_end(b, x + 2);
            lemma_first(b, j, true, started);
        } else if pair_at(b, x, 47u8, 42u8) {
            lemma_block_comment_end(b, x + 2, 1);
            let j = block_comment_end(b, x + 2, 1).0;
            lemma_after_ascii(b, j);
            lemma_first(b, j, true, started);
        } else {
            lemma_token_facts(b, x);
        }
    }
}

/// A `$` whose tag scan fails in the text also fails in the compacted text:
/// the tag characters are copied one by one, and the byte that stops the scan
/// is copied or becomes a space.
proof fn lemma_tag_rescan(b: Seq<u8>, start: int, t: int, o: Seq<u8>, ostart: int, y: int)
    requires
        shaped(b),
        boundary(b, t),
        start < t,
        dollar_tag_end(b, start, t) is None,
        sql_from(b, t, false, true) is Ok,
        0 <= y <= o.len(),
        o.subrange(y, o.len() as int) == sql_from(b, t, false, true)->Ok_0,
        y - ostart == t - start,
    ensures
        dollar_tag_end(o, ostart, y) is None,
    decreases b.len() - t,
{
    let r = sql_from(b, t, false, true)->Ok_0;
    lemma_first(b, t, false, true);
    if t < b.len() {
        lemma_step(b, t);
        lemma_ws_width(b, t);
        if r.len() > 0 {
            assert(o[y] == r[0]);
        }
        if b[t] != 36u8 && !(!is_tag_byte(b[t], t == start + 1) || ws_width(b, t) > 0) {
            let w = width(b[t]);
            assert(token_start(b, t));
            assert(token_end(b, t) == Ok::<int, SqlError>(t + w));
            let rest = sql_from(b, t + w, false, true)->Ok_0;
            assert(r == b.subrange(t, t + w) + rest);
            assert forall|k: int| t <= k < t + w implies o[y + k - t] == b[k] by {
                assert(o.subrange(y, o.len() as int)[k - t] == r[k - t]);
            }
            lemma_ws_width_local(b, t, o, y);
            assert(o.subrange(y + w, o.len() as int) =~= rest) by {
                assert forall|k: int| 0 <= k < rest.len() implies #[trigger] o.subrange(
                    y + w,
                    o.len() as int,
                )[k] == rest[k] by {
                    assert(o.subrange(y, o.len() as int)[k + w] == r[k + w]);
                }
            }
            lemma_tag_rescan(b, start, t + w, o, ostart, y + w);
        }
    }
}

/// Walking back over continuation bytes stays inside a copied stretch that
/// starts at a character boundary.
proof fn lemma_lead_local(b: Seq<u8>, i: int, j: int, o: Seq<u8>, q: int)
    requires
        0 <= i <= j < b.len(),
        !is_continuation_byte(b[i]),
        0 <= q,
        q + (j - i) < o.len(),
        forall|k: int| i <= k <= j ==> o[q + k - i] == b[k],
    ensures
        i <= lead_before(b, j) <= j,
        !is_continuation_byte(b[lead_before(b, j)]),
        lead_before(o, q + (j - i)) == q + (lead_before(b, j) - i),
    decreases j - i,
{
    assert(o[q + j - i] == b[j]);
    if j > i && is_continuation_byte(b[j]) {
        lemma_lead_local(b, i, j - 1, o, q);
    }
}

/// Inside one character, walking back over continuation bytes reaches its
/// first byte.
proof fn lemma_lead_in_char(b: Seq<u8>, i: int, k: int)
    requires
        shaped(b),
        boundary(b, i),
        i < b.len(),
        i <= k < i + width(b[i]),
    ensures
        lead_before(b, k) == i,
    decreases k - i,
{
    lemma_step(b, i);
    if k > i {
        assert(is_continuation_byte(b[k]));
        lemma_lead_in_char(b, i, k - 1);
    }
}

/// After a whitespace character nothing counts as an identifier or an `E`
/// prefix.
proof fn lemma_context_after_space(b: Seq<u8>, i: int)
    requires
        shaped(b),
        boundary(b, i),
        i < b.len(),
        ws_width(b, i) > 0,
    ensures
        !ident_before(b, i + width(b[i])),
        !escape_prefix(b, i + width(b[i])),
{
    lemma_step(b, i);
    lemma_ws_width(b, i);
    let w = width(b[i]);
    lemma_lead_in_char(b, i, i + w - 1);
    if w == 1 {
        lemma_ascii_scalar(b[i]);
    } else {
        assert(is_continuation_byte(b[i + w - 1]));
    }
}

/// After a `/` nothing counts as an identifier or an `E` prefix.
proof fn lemma_context_after_slash(b: Seq<u8>, j: int)
    requires
        0 < j <= b.len(),
        b[j - 1] == 47u8,
    ensures
        !ident_before(b, j),
        !escape_prefix(b, j),
{
    assert(lead_before(b, j - 1) == j - 1);
}

/// The context that a copied token leaves behind is the same in the copy.
proof fn lemma_context_after_token(b: Seq<u8>, i: int, e: int, o: Seq<u8>, q: int)
    requires
        shaped(b),
        boundary(b, i),
        boundary(b, e),
        i < e <= b.len(),
        0 <= q,
        q + (e - i) <= o.len(),
        forall|k: int| i <= k < e ==> o[q + k - i] == b[k],
        ident_before(o, q) == ident_before(b, i),
        e - i > 1 ==> b[e - 1] != 69u8 && b[e - 1] != 101u8,
    ensures
        ident_before(o, q + (e - i)) == ident_before(b, e),
        escape_prefix(o, q + (e - i)) == escape_prefix(b, e),
{
    lemma_lead_local(b, i, e - 1, o, q);
    let s = lead_before(b, e - 1);
    let so = q + (s - i);
    lemma_step_within(b, s, e);
    assert forall|k: int| s <= k < s + width(b[s]) implies o[so + k - s] == b[k] by {
        assert(o[q + k - i] == b[k]);
    }
    lemma_ws_width_local(b, s, o, so);
    assert(o[q + (e - 1) - i] == b[e - 1]);
}

/// A token copied to position `q` of the compacted text, followed there by
/// the compaction of the rest, is scanned as the same token again.
#[verifier::spinoff_prover]
#[verifier::rlimit(40)]
proof fn lemma_token_local(b: Seq<u8>, i: int, o: Seq<u8>, q: int)
    requires
        shaped(b),
        boundary(b, i),
        token_start(b, i),
        token_end(b, i) is Ok,
        sql_from(b, token_end(b, i)->Ok_0, false, true) is Ok,
        0 <= q,
        q + (token_end(b, i)->Ok_0 - i) <= o.len(),
        o.subrange(q, q + (token_end(b, i)->Ok_0 - i)) == b.subrange(i, token_end(b, i)->Ok_0),
        o.subrange(q + (token_end(b, i)->Ok_0 - i), o.len() as int) == sql_from(
            b,
            token_end(b, i)->Ok_0,
            false,
            true,
        )->Ok_0,
        ident_before(o, q) == ident_before(b, i),
        escape_prefix(o, q) == escape_prefix(b, i),
    ensures
        token_start(o, q),
        token_end(o, q) == Ok::<int, SqlError>(q + (token_end(b, i)->Ok_0 - i)),
{
    let e = token_end(b, i)->Ok_0;
    let n = e - i;
    let rest = sql_from(b, e, false, true)->Ok_0;
    lemma_token_facts(b, i);
    lemma_step(b, i);
    lemma_ws_width(b, i);
    assert forall|k: int| i <= k < e implies o[q + k - i] == b[k] by {
        assert(o.subrange(q, q + n)[k - i] == b.subrange(i, e)[k - i]);
    }
    lemma_ws_width_local(b, i, o, q);
    lemma_first(b, e, false, true);
    if rest.len() > 0 {
        assert(o[q + n] == o.subrange(q + n, o.len() as int)[0]);
    }
    // The byte after the copy: the end, a space, or the next token's first byte.
    assert(q + n == o.len() || o[q + n] == 32u8 || (e < b.len() && token_start(b, e) && o[q + n]
        == b[e]));
    let x = b[i];
    if x == 39u8 || x == 34u8 || x == 96u8 || x == 91u8 {
        let close = if x == 91u8 {
            93u8
        } else {
            x
        };
        let escape = x == 39u8 && escape_prefix(b, i);
        lemma_quoted_bounds(b, i + 1, close, escape);
        assert(quoted_from(b, i + 1, close, escape) == Some(e));
        lemma_quoted_local(b, i + 1, close, escape, o, q + 1);
        if x == 39u8 {
            assert(quoted_token(o, q, 39u8, escape_prefix(o, q)) == Ok::<int, SqlError>(q + n));
        }
    } else if x == 36u8 {
        if ident_before(b, i) {
        } else {
            match dollar_tag_end(b, i, i + 1) {
                None => {
                    assert(n == 1);
                    lemma_tag_rescan(b, i, i + 1, o, q, q + 1);
                },
                Some(te) => {
                    let m = te - i + 1;
                    lemma_tag_bounds(b, i, i + 1);
                    lemma_close_bounds(b, te + 1, i, m);
                    assert(dollar_close(b, te + 1, i, m) == Some(e));
                    lemma_tag_local(b, i, i + 1, o, q, q + 1);
                    lemma_close_local(b, te + 1, i, m, o, q + (te - i) + 1, q);
                },
            }
        }
    }
}

/// The position in the compacted text where the token at input position `i`
/// is written: after the separating space, if one is written.
spec fn copy_at(pending: bool, started: bool, j: int) -> int {
    if pending && started {
        j + 1
    } else {
        j
    }
}

/// The token at input position `i` appears at `copy_at(..)` of the compacted
/// text, is scanned there as the same token, and leaves the same context.
proof fn lemma_rescan_token(b: Seq<u8>, i: int, pending: bool, started: bool, o: Seq<u8>, j: int)
    requires
        shaped(b),
        boundary(b, i),
        token_start(b, i),
        sql_from(b, i, pending, started) is Ok,
        0 <= j <= o.len(),
        o.subrange(j, o.len() as int) == sql_from(b, i, pending, started)->Ok_0,
        !started ==> j == 0,
        !started && !pending ==> i == 0,
        pending ==> !ident_before(b, i) && !escape_prefix(b, i),
        !pending && started ==> ident_before(o, j) == ident_before(b, i) && escape_prefix(o, j)
            == escape_prefix(b, i),
    ensures
        token_end(b, i) is Ok,
        i < token_end(b, i)->Ok_0 <= b.len(),
        boundary(b, token_end(b, i)->Ok_0),
        sql_from(b, token_end(b, i)->Ok_0, false, true) is Ok,
        sql_from(b, i, pending, started)->Ok_0 == (if pending && started {
            seq![32u8]
        } else {
            Seq::<u8>::empty()
        }) + b.subrange(i, token_end(b, i)->Ok_0) + sql_from(
            b,
            token_end(b, i)->Ok_0,
            false,
            true,
        )->Ok_0,
        pending && started ==> j < o.len() && o[j] == 32u8 && ws_width(o, j) == 1,
        copy_at(pending, started, j) + (token_end(b, i)->Ok_0 - i) <= o.len(),
        token_start(o, copy_at(pending, started, j)),
        token_end(o, copy_at(pending, started, j)) == Ok::<int, SqlError>(copy_at(pending, started, j)
            + (token_end(b, i)->Ok_0 - i)),
        o.subrange(copy_at(pending, started, j), copy_at(pending, started, j) + (token_end(b, i)->Ok_0
            - i)) == b.subrange(i, token_end(b, i)->Ok_0),
        o.subrange(copy_at(pending, started, j) + (token_end(b, i)->Ok_0 - i), o.len() as int)
            == sql_from(b, token_end(b, i)->Ok_0, false, true)->Ok_0,
        ident_before(o, copy_at(pending, started, j) + (token_end(b, i)->Ok_0 - i)) == ident_before(
            b,
            token_end(b, i)->Ok_0,
        ),
        escape_prefix(o, copy_at(pending, started, j) + (token_end(b, i)->Ok_0 - i))
            == escape_prefix(b, token_end(b, i)->Ok_0),
{
    let r = sql_from(b, i, pending, started)->Ok_0;
    lemma_step(b, i);
    lemma_ws_width(b, i);
    lemma_token_facts(b, i);
    let e = token_end(b, i)->Ok_0;
    let n = e - i;
    let rest = sql_from(b, e, false, true)->Ok_0;
    let space = pending && started;
    let sep = if space {
        seq![32u8]
    } else {
        Seq::<u8>::empty()
    };
    assert(r == sep + b.subrange(i, e) + rest);
    let q = copy_at(pending, started, j);
    assert(o.subrange(q, q + n) =~= b.subrange(i, e)) by {
        assert forall|k: int| 0 <= k < n implies #[trigger] o.subrange(q, q + n)[k] == b.subrange(
            i,
            e,
        )[k] by {
            assert(o.subrange(j, o.len() as int)[q - j + k] == r[q - j + k]);
        }
    }
    assert(o.subrange(q + n, o.len() as int) =~= rest) by {
        assert forall|k: int| 0 <= k < rest.len() implies #[trigger] o.subrange(
            q + n,
            o.len() as int,
        )[k] == rest[k] by {
            assert(o.subrange(j, o.len() as int)[q - j + n + k] == r[q - j + n + k]);
        }
    }
    if space {
        assert(o[j] == o.subrange(j, o.len() as int)[0]);
        lemma_ascii_scalar(32u8);
        assert(ws_width(o, j) == 1);
        assert(lead_before(o, j) == j);
    }
    assert(ident_before(o, q) == ident_before(b, i) && escape_prefix(o, q) == escape_prefix(b, i));
    lemma_token_local(b, i, o, q);
    assert forall|k: int| i <= k < e implies o[q + k - i] == b[k] by {
        assert(o.subrange(q, q + n)[k - i] == b.subrange(i, e)[k - i]);
    }
    lemma_context_after_token(b, i, e, o, q);
}

/// Compacting the output again from the point that corresponds to input
/// position `i` reproduces the rest of the output. `pending` and `started`
/// are the input scan's state; the context before a token (an identifier
/// character or an `E` prefix) is the same on both sides.
proof fn lemma_rescan(b: Seq<u8>, i: int, pending: bool, started: bool, o: Seq<u8>, j: int)
    requires
        shaped(b),
        boundary(b, i),
        sql_from(b, i, pending, started) is Ok,
        0 <= j <= o.len(),
        o.subrange(j, o.len() as int) == sql_from(b, i, pending, started)->Ok_0,
        !started ==> j == 0,
        !started && !pending ==> i == 0,
        pending ==> !token_start(b, i) || (!ident_before(b, i) && !escape_prefix(b, i)),
        !pending && started ==> ident_before(o, j) == ident_before(b, i) && escape_prefix(o, j)
            == escape_prefix(b, i),
    ensures
        sql_from(o, j, false, started) == sql_from(b, i, pending, started),
    decreases b.len() - i,
{
    let r = sql_from(b, i, pending, started)->Ok_0;
    if i >= b.len() {
        assert(r.len() == 0);
        return;
    }
    lemma_step(b, i);
    lemma_ws_width(b, i);
    if ws_width(b, i) > 0 && i + ws_width(b, i) <= b.len() {
        lemma_context_after_space(b, i);
        lemma_rescan(b, i + ws_width(b, i), true, started, o, j);
    } else if pair_at(b, i, 45u8, 45u8) {
        let k = line_comment_end(b, i + 2);
        lemma_line_comment_end(b, i + 2);
        if k < b.len() {
            lemma_ascii_scalar(b[k]);
            lemma_step(b, k);
        }
        lemma_rescan(b, k, true, started, o, j);
    } else if pair_at(b, i, 47u8, 42u8) {
        lemma_block_comment_end(b, i + 2, 1);
        let k = block_comment_end(b, i + 2, 1).0;
        lemma_after_ascii(b, k);
        lemma_context_after_slash(b, k);
        lemma_rescan(b, k, true, started, o, j);
    } else {
        assert(token_start(b, i));
        lemma_rescan_token(b, i, pending, started, o, j);
        let e = token_end(b, i)->Ok_0;
        let q = copy_at(pending, started, j);
        lemma_rescan(b, e, false, true, o, q + (e - i));
        if pending && started {
            assert(sql_from(o, j, false, started) == sql_from(o, j + 1, true, started));
        }
    }
}

/// Compaction is idempotent: compacting its own output gives that output
/// back unchanged.
pub proof fn lemma_compacted_idempotent(b: Seq<u8>)
    requires
        valid_utf8(b),
        compacted(b) is Ok,
    ensures
        compacted(compacted(b)->Ok_0) == compacted(b),
{
    lemma_valid_shaped(b);
    let o = compacted(b)->Ok_0;
    assert(o.subrange(0, o.len() as int) =~= o);
    lemma_rescan(b, 0, false, false, o, 0);
}

proof fn lemma_sql_from_utf8(b: Seq<u8>, i: int, pending: bool, started: bool)
    requires
        valid_utf8(b),
        shaped(b),
        boundary(b, i),
        sql_from(b, i, pending, started) is Ok,
    ensures
        valid_utf8(sql_from(b, i, pending, started)->Ok_0),
    decreases b.len() - i,
{
    if i >= b.len() {
        lemma_valid_ascii(Seq::<u8>::empty());
        return;
    }
    lemma_step(b, i);
    lemma_ws_width(b, i);
    if ws_width(b, i) > 0 && i + ws_width(b, i) <= b.len() {
        lemma_sql_from_utf8(b, i + ws_width(b, i), true, started);
    } else if pair_at(b, i, 45u8, 45u8) {
        let k = line_comment_end(b, i + 2);
        lemma_line_comment_end(b, i + 2);
        if k < b.len() {
            lemma_step(b, k);
        }
        lemma_sql_from_utf8(b, k, true, started);
    } else if pair_at(b, i, 47u8, 42u8) {
        lemma_block_comment_end(b, i + 2, 1);
        let k = block_comment_end(b, i + 2, 1).0;
        lemma_after_ascii(b, k);
        lemma_sql_from_utf8(b, k, true, started);
    } else {
        lemma_token_facts(b, i);
        let e = token_end(b, i)->Ok_0;
        let sep = if pending && started {
            seq![32u8]
        } else {
            Seq::<u8>::empty()
        };
        lemma_sql_from_utf8(b, e, false, true);
        lemma_valid_ascii(sep);
        lemma_valid_slice(b, i, e);
        valid_utf8_concat(sep, b.subrange(i, e));
        valid_utf8_concat(sep + b.subrange(i, e), sql_from(b, e, false, true)->Ok_0);
    }
}

/// Compacting valid UTF-8 gives valid UTF-8.
pub proof fn lemma_compacted_utf8(b: Seq<u8>)
    requires
        valid_utf8(b),
        compacted(b) is Ok,
    ensures
        valid_utf8(compacted(b)->Ok_0),
{
    lemma_valid_shaped(b);
    lemma_sql_from_utf8(b, 0, false, false);
}

} // verus!
