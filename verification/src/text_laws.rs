//! Laws of the text operations: trimming removes exactly the whitespace at
//! the ends and is idempotent, line trimming trims each line and keeps every
//! line ending, collapsing is idempotent and an empty replacement removes all
//! whitespace, replacing a text with itself or replacing an absent text
//! changes nothing, prefix removal works line by line, empty prefixes and
//! suffixes change nothing, removing empty lines keeps the other lines in
//! order, and lines hold no LF.
use vstd::prelude::*;
use vstd::utf8::*;
use crate::chars::{
    boundary, lemma_ascii_boundary, lemma_ascii_scalar, lemma_step, lemma_step_within,
    lemma_valid_ascii, lemma_valid_shaped, lemma_valid_slice, lemma_ws_width,
    lemma_ws_width_local, shaped, width,
    ws_width,
};
use crate::lines::{
    content_stop, lemma_line_parts, line_ends_with, line_stop, lines_from, lines_of,
    nonempty_lines_from, strip_suffix_from, suffix_stripped, without_empty_lines,
};
use crate::transforms::{
    collapse_from, collapsed, has_line_break, lemma_collapsed_utf8, lemma_match_end,
    lemma_strip_prefix_copy, matches_at, prefix_stripped,
    rank_byte, replace_from, replaced, run_rank, run_text, strip_prefix_from,
};
use crate::trim::{
    content_end, lemma_content_end, lemma_line_end, lemma_skip_ws, lemma_skip_ws_bounds,
    lemma_trimmed_utf8, line_break, line_end, skip_ws, trim_end, trim_lines_from, trim_start,
    trimmed, trimmed_line, trimmed_lines,
};

verus! {

proof fn lemma_strip_prefix_from_empty(b: Seq<u8>, i: int, line_start: bool)
    requires
        0 <= i <= b.len(),
    ensures
        strip_prefix_from(b, i, line_start, Seq::empty()) == b.subrange(i, b.len() as int),
    decreases b.len() - i,
{
    assert(matches_at(b, i, Seq::<u8>::empty())) by {
        assert(b.subrange(i, i) =~= Seq::<u8>::empty());
    }
    if i < b.len() {
        lemma_strip_prefix_from_empty(b, i + 1, b[i] == 10u8);
        assert(seq![b[i]] + b.subrange(i + 1, b.len() as int) =~= b.subrange(i, b.len() as int));
    } else {
        assert(b.subrange(i, b.len() as int) =~= Seq::<u8>::empty());
    }
}

/// An empty prefix has no effect.
pub proof fn lemma_empty_prefix_keeps_text(b: Seq<u8>)
    ensures
        prefix_stripped(b, Seq::empty()) == b,
{
    lemma_strip_prefix_from_empty(b, 0, true);
    assert(b.subrange(0, b.len() as int) =~= b);
}

proof fn lemma_strip_suffix_from_empty(b: Seq<u8>, i: int)
    requires
        0 <= i <= b.len(),
    ensures
        strip_suffix_from(b, i, Seq::empty()) == b.subrange(i, b.len() as int),
    decreases b.len() - i,
{
    if i < b.len() {
        lemma_line_parts(b, i);
        let cs = content_stop(b, i);
        let ls = line_stop(b, i);
        assert(line_ends_with(b, i, Seq::<u8>::empty())) by {
            assert(b.subrange(cs, cs) =~= Seq::<u8>::empty());
        }
        lemma_strip_suffix_from_empty(b, ls);
        assert(b.subrange(i, cs) + b.subrange(cs, ls) + b.subrange(ls, b.len() as int)
            =~= b.subrange(i, b.len() as int));
    } else {
        assert(b.subrange(i, b.len() as int) =~= Seq::<u8>::empty());
    }
}

/// An empty suffix has no effect.
pub proof fn lemma_empty_suffix_keeps_text(b: Seq<u8>)
    ensures
        suffix_stripped(b, Seq::empty()) == b,
{
    lemma_strip_suffix_from_empty(b, 0);
    assert(b.subrange(0, b.len() as int) =~= b);
}

proof fn lemma_replace_from_same(b: Seq<u8>, i: int, f: Seq<u8>)
    requires
        shaped(b),
        shaped(f),
        boundary(b, i),
    ensures
        replace_from(b, i, f, f) == b.subrange(i, b.len() as int),
    decreases b.len() - i,
{
    if matches_at(b, i, f) && f.len() > 0 {
        lemma_match_end(b, i, f);
        lemma_replace_from_same(b, i + f.len(), f);
        assert(f + b.subrange(i + f.len(), b.len() as int) =~= b.subrange(i, b.len() as int));
    } else {
        if matches_at(b, i, f) {
            assert(f =~= Seq::<u8>::empty());
        }
        if i < b.len() {
            lemma_step(b, i);
            let w = width(b[i]);
            lemma_replace_from_same(b, i + w, f);
            assert(b.subrange(i, i + w) + b.subrange(i + w, b.len() as int) =~= b.subrange(
                i,
                b.len() as int,
            ));
        } else {
            assert(b.subrange(i, b.len() as int) =~= Seq::<u8>::empty());
        }
    }
}

/// Replacing a text with itself changes nothing.
pub proof fn lemma_replace_with_itself(b: Seq<u8>, f: Seq<u8>)
    requires
        valid_utf8(b),
        valid_utf8(f),
    ensures
        replaced(b, f, f) == b,
{
    lemma_valid_shaped(b);
    lemma_valid_shaped(f);
    lemma_replace_from_same(b, 0, f);
    assert(b.subrange(0, b.len() as int) =~= b);
}

proof fn lemma_lines_from_no_lf(b: Seq<u8>, i: int)
    requires
        0 <= i <= b.len(),
    ensures
        forall|k: int, t: int|
            0 <= k < lines_from(b, i).len() && 0 <= t < lines_from(b, i)[k].len() ==> #[trigger] lines_from(
                b,
                i,
            )[k][t] != 10u8,
    decreases b.len() - i,
{
    if i < b.len() {
        lemma_line_parts(b, i);
        lemma_line_end(b, i);
        let ls = line_stop(b, i);
        let first = b.subrange(i, content_stop(b, i));
        lemma_lines_from_no_lf(b, ls);
        let all = lines_from(b, i);
        assert(all == seq![first] + lines_from(b, ls));
        assert forall|k: int, t: int| 0 <= k < all.len() && 0 <= t < all[k].len() implies #[trigger] all[k][t]
            != 10u8 by {
            if k == 0 {
                assert(all[k] == first);
                assert(first[t] == b[i + t]);
            } else {
                assert(all[k] == lines_from(b, ls)[k - 1]);
            }
        }
    }
}

/// No line holds an LF byte: every LF ends a line.
pub proof fn lemma_lines_hold_no_lf(b: Seq<u8>)
    ensures
        forall|k: int, t: int|
            0 <= k < lines_of(b).len() && 0 <= t < lines_of(b)[k].len() ==> #[trigger] lines_of(b)[k][t]
                != 10u8,
{
    lemma_lines_from_no_lf(b, 0);
}

/// Every character in a skipped whitespace run is whitespace.
proof fn lemma_skip_ws_all_space(b: Seq<u8>, i: int, limit: int)
    requires
        shaped(b),
        boundary(b, i),
        boundary(b, limit),
        i <= limit,
    ensures
        forall|k: int| #![trigger boundary(b, k)]
            boundary(b, k) && i <= k < skip_ws(b, i, limit) ==> ws_width(b, k) > 0,
    decreases b.len() - i,
{
    lemma_skip_ws(b, i, limit);
    if i < limit {
        lemma_step_within(b, i, limit);
        lemma_step(b, i);
        lemma_ws_width(b, i);
        if ws_width(b, i) > 0 {
            let w = width(b[i]);
            lemma_skip_ws_all_space(b, i + w, limit);
            assert forall|k: int| #![trigger boundary(b, k)]
                boundary(b, k) && i <= k < skip_ws(b, i, limit) implies ws_width(b, k) > 0 by {
                if i < k < i + w {
                    assert(is_continuation_byte(b[k]));
                }
            }
        }
    }
}

/// After the content end, every character up to the limit is whitespace.
proof fn lemma_content_end_space_after(b: Seq<u8>, i: int, c: int, limit: int)
    requires
        shaped(b),
        boundary(b, i),
        boundary(b, limit),
        boundary(b, c),
        c <= i <= limit,
    ensures
        forall|k: int| #![trigger boundary(b, k)]
            boundary(b, k) && i <= k < limit && content_end(b, i, c, limit) <= k ==> ws_width(b, k)
                > 0,
        content_end(b, i, c, limit) > c ==> exists|k: int|
            #![trigger boundary(b, k)]
            boundary(b, k) && i <= k < content_end(b, i, c, limit) && k + width(b[k])
                == content_end(b, i, c, limit) && ws_width(b, k) == 0,
    decreases b.len() - i,
{
    lemma_content_end(b, i, c, limit);
    if i < limit {
        lemma_step_within(b, i, limit);
        lemma_step(b, i);
        lemma_ws_width(b, i);
        let w = width(b[i]);
        let e = content_end(b, i, c, limit);
        if ws_width(b, i) == 0 {
            lemma_content_end(b, i + w, i + w, limit);
            lemma_content_end_space_after(b, i + w, i + w, limit);
            if e == i + w {
                assert(boundary(b, i) && i <= i < e && i + width(b[i]) == e && ws_width(b, i) == 0);
            }
        } else {
            lemma_content_end_space_after(b, i + w, c, limit);
        }
        assert forall|k: int| #![trigger boundary(b, k)]
            boundary(b, k) && i <= k < limit && e <= k implies ws_width(b, k) > 0 by {
            if i < k < i + w {
                assert(is_continuation_byte(b[k]));
            }
        }
    }
}

/// Trimming removes exactly the whitespace at both ends: every character
/// before the kept text and every character after it is whitespace, and a
/// nonempty kept text starts and ends with a character that is not; text
/// made only of whitespace trims to nothing.
pub proof fn lemma_trim_removes_end_whitespace(b: Seq<u8>)
    requires
        valid_utf8(b),
    ensures
        0 <= trim_start(b) <= trim_end(b) <= b.len(),
        trimmed(b) == b.subrange(trim_start(b), trim_end(b)),
        forall|k: int| #![trigger boundary(b, k)]
            boundary(b, k) && 0 <= k < trim_start(b) ==> ws_width(b, k) > 0,
        forall|k: int| #![trigger boundary(b, k)]
            boundary(b, k) && trim_end(b) <= k < b.len() ==> ws_width(b, k) > 0,
        trim_start(b) < trim_end(b) ==> ws_width(b, trim_start(b)) == 0 && exists|k: int|
            #![trigger boundary(b, k)]
            boundary(b, k) && trim_start(b) <= k < trim_end(b) && k + width(b[k]) == trim_end(b)
                && ws_width(b, k) == 0,
        trim_start(b) == trim_end(b) ==> forall|k: int| #![trigger boundary(b, k)]
            boundary(b, k) && 0 <= k < b.len() ==> ws_width(b, k) > 0,
{
    lemma_valid_shaped(b);
    let n = b.len() as int;
    let s = trim_start(b);
    lemma_skip_ws(b, 0, n);
    lemma_skip_ws_all_space(b, 0, n);
    lemma_content_end(b, s, s, n);
    lemma_content_end_space_after(b, s, s, n);
    if s < n {
        lemma_step(b, s);
        lemma_content_end(b, s + width(b[s]), s + width(b[s]), n);
        assert(trim_end(b) >= s + width(b[s]));
    }
}

/// The content end is at or after the end of every non-whitespace character.
proof fn lemma_content_end_covers(b: Seq<u8>, i: int, c: int, limit: int, k: int)
    requires
        shaped(b),
        boundary(b, i),
        boundary(b, limit),
        boundary(b, c),
        boundary(b, k),
        c <= i <= k < limit,
        ws_width(b, k) == 0,
    ensures
        content_end(b, i, c, limit) >= k + width(b[k]),
    decreases b.len() - i,
{
    lemma_step_within(b, i, limit);
    lemma_step(b, i);
    let w = width(b[i]);
    if i == k {
        lemma_content_end(b, i + w, i + w, limit);
    } else {
        lemma_step_within(b, i, k);
        if ws_width(b, i) == 0 {
            lemma_content_end_covers(b, i + w, i + w, limit, k);
        } else {
            lemma_content_end_covers(b, i + w, c, limit, k);
        }
    }
}

/// Trimming twice is trimming once.
pub proof fn lemma_trim_idempotent(b: Seq<u8>)
    requires
        valid_utf8(b),
    ensures
        trimmed(trimmed(b)) == trimmed(b),
{
    lemma_trim_removes_end_whitespace(b);
    lemma_trimmed_utf8(b);
    lemma_valid_shaped(b);
    let t = trimmed(b);
    lemma_valid_shaped(t);
    let s = trim_start(b);
    let e = trim_end(b);
    let n = t.len() as int;
    if s < e {
        lemma_skip_ws(b, 0, b.len() as int);
        lemma_content_end(b, s, s, b.len() as int);
        lemma_step_within(b, s, e);
        assert forall|x: int| s <= x < s + width(b[s]) implies t[0 + x - s] == b[x] by {}
        lemma_ws_width_local(b, s, t, 0);
        assert(trim_start(t) == 0);
        let k = choose|k: int| #![trigger boundary(b, k)]
            boundary(b, k) && s <= k < e && k + width(b[k]) == e && ws_width(b, k) == 0;
        assert forall|x: int| k <= x < k + width(b[k]) implies t[(k - s) + x - k] == b[x] by {}
        lemma_ws_width_local(b, k, t, k - s);
        assert(boundary(t, k - s));
        lemma_content_end_covers(t, 0, 0, n, k - s);
        lemma_content_end(t, 0, 0, n);
    }
    assert(t.subrange(trim_start(t), trim_end(t)) =~= t);
}

/// Number of LF bytes in `s`.
pub open spec fn lf_count(s: Seq<u8>) -> nat
    decreases s.len(),
{
    if s.len() == 0 {
        0
    } else {
        lf_count(s.drop_last()) + if s.last() == 10u8 {
            1nat
        } else {
            0nat
        }
    }
}

proof fn lemma_lf_count_concat(x: Seq<u8>, y: Seq<u8>)
    ensures
        lf_count(x + y) == lf_count(x) + lf_count(y),
    decreases y.len(),
{
    if y.len() == 0 {
        assert(x + y =~= x);
    } else {
        lemma_lf_count_concat(x, y.drop_last());
        assert((x + y).drop_last() =~= x + y.drop_last());
    }
}

proof fn lemma_lf_count_none(s: Seq<u8>)
    requires
        forall|k: int| 0 <= k < s.len() ==> s[k] != 10u8,
    ensures
        lf_count(s) == 0,
    decreases s.len(),
{
    if s.len() > 0 {
        lemma_lf_count_none(s.drop_last());
    }
}

proof fn lemma_trim_lines_from_lf(b: Seq<u8>, i: int)
    requires
        shaped(b),
        boundary(b, i),
    ensures
        lf_count(trim_lines_from(b, i)) == lf_count(b.subrange(i, b.len() as int)),
    decreases b.len() - i,
{
    if i < b.len() {
        let le = line_end(b, i);
        lemma_line_end(b, i);
        lemma_skip_ws(b, i, le);
        let st = skip_ws(b, i, le);
        lemma_content_end(b, st, st, le);
        let line = trimmed_line(b, i, le);
        assert forall|k: int| 0 <= k < line.len() implies line[k] != 10u8 by {
            assert(line[k] == b[st + k]);
        }
        lemma_lf_count_none(line);
        assert forall|k: int| 0 <= k < b.subrange(i, le).len() implies b.subrange(i, le)[k]
            != 10u8 by {
            assert(b.subrange(i, le)[k] == b[i + k]);
        }
        lemma_lf_count_none(b.subrange(i, le));
        if le < b.len() {
            let brk = line_break(b, le);
            assert(lf_count(brk) == 1) by {
                reveal_with_fuel(lf_count, 3);
                if brk.len() == 2 {
                    assert(brk.drop_last() =~= seq![13u8]);
                    assert(seq![13u8].drop_last() =~= Seq::<u8>::empty());
                } else {
                    assert(brk.drop_last() =~= Seq::<u8>::empty());
                }
            }
            lemma_ascii_boundary(b, le);
            lemma_trim_lines_from_lf(b, le + 1);
            lemma_lf_count_concat(line, brk);
            lemma_lf_count_concat(line + brk, trim_lines_from(b, le + 1));
            let rest = b.subrange(le + 1, b.len() as int);
            assert(b.subrange(i, b.len() as int) =~= b.subrange(i, le) + seq![10u8] + rest);
            assert(lf_count(seq![10u8]) == 1) by {
                reveal_with_fuel(lf_count, 2);
                assert(seq![10u8].drop_last() =~= Seq::<u8>::empty());
                assert(seq![10u8].last() == 10u8);
            }
            lemma_lf_count_concat(b.subrange(i, le), seq![10u8]);
            lemma_lf_count_concat(b.subrange(i, le) + seq![10u8], rest);
        } else {
            assert(b.subrange(i, b.len() as int) =~= b.subrange(i, le));
        }
    } else {
        assert(b.subrange(i, b.len() as int) =~= Seq::<u8>::empty());
    }
}

/// Trimming each line keeps every line ending: the text has as many LF bytes
/// afterwards as before.
pub proof fn lemma_trim_lines_keeps_line_endings(b: Seq<u8>)
    requires
        valid_utf8(b),
    ensures
        lf_count(trimmed_lines(b)) == lf_count(b),
{
    lemma_valid_shaped(b);
    lemma_trim_lines_from_lf(b, 0);
    assert(b.subrange(0, b.len() as int) =~= b);
}

/// `t` is valid UTF-8 made only of whitespace characters (possibly none).
pub open spec fn spaces_only(t: Seq<u8>) -> bool {
    &&& valid_utf8(t)
    &&& forall|k: int| #![trigger boundary(t, k)] boundary(t, k) && 0 <= k < t.len() ==> ws_width(t, k) > 0
}

proof fn lemma_run_rank_bounds(b: Seq<u8>, i: int)
    ensures
        0 <= run_rank(b, i) <= 2,
    decreases b.len() - i,
{
    if 0 <= i < b.len() && ws_width(b, i) > 0 && i + ws_width(b, i) <= b.len() {
        lemma_run_rank_bounds(b, i + ws_width(b, i));
    }
}

/// A copy of a whitespace-only text that is followed by a character that is
/// not whitespace, or by the end, is skipped as one whole run.
proof fn lemma_skip_copied_space(o: Seq<u8>, q: int, t: Seq<u8>, x: int)
    requires
        spaces_only(t),
        shaped(t),
        boundary(t, x),
        0 <= q,
        q + t.len() <= o.len(),
        forall|k: int| 0 <= k < t.len() ==> o[q + k] == #[trigger] t[k],
        q + t.len() == o.len() || ws_width(o, q + t.len()) == 0,
    ensures
        skip_ws(o, q + x, o.len() as int) == q + t.len(),
    decreases t.len() - x,
{
    if x < t.len() {
        lemma_step(t, x);
        let w = width(t[x]);
        assert forall|k: int| x <= k < x + w implies o[(q + x) + k - x] == t[k] by {
            assert(o[q + k] == t[k]);
        }
        lemma_ws_width_local(t, x, o, q + x);
        lemma_ws_width(t, x);
        lemma_skip_copied_space(o, q, t, x + w);
    }
}

/// Collapsing the output again from the point that corresponds to input
/// position `i` reproduces the rest of the output.
proof fn lemma_collapse_rescan(b: Seq<u8>, i: int, r: Option<Seq<u8>>, o: Seq<u8>, q: int)
    requires
        shaped(b),
        boundary(b, i),
        r matches Some(t) ==> spaces_only(t),
        0 <= q <= o.len(),
        o.subrange(q, o.len() as int) == collapse_from(b, i, r),
    ensures
        collapse_from(o, q, r) == collapse_from(b, i, r),
    decreases b.len() - i,
{
    let out = collapse_from(b, i, r);
    if i >= b.len() {
        assert(out.len() == 0);
        return;
    }
    lemma_step(b, i);
    lemma_ws_width(b, i);
    let w = width(b[i]);
    if ws_width(b, i) > 0 {
        let j = skip_ws(b, i, b.len() as int);
        lemma_skip_ws(b, i, b.len() as int);
        lemma_skip_ws_bounds(b, i, b.len() as int);
        let text = run_text(b, i, r);
        let rest = collapse_from(b, j, r);
        let l = text.len() as int;
        assert(out == text + rest);
        assert forall|k: int| 0 <= k < l implies o[q + k] == #[trigger] text[k] by {
            assert(o.subrange(q, o.len() as int)[k] == out[k]);
        }
        assert(o.subrange(q + l, o.len() as int) =~= rest) by {
            assert forall|k: int| 0 <= k < rest.len() implies #[trigger] o.subrange(
                q + l,
                o.len() as int,
            )[k] == rest[k] by {
                assert(o.subrange(q, o.len() as int)[l + k] == out[l + k]);
            }
        }
        // What follows the run in the output: the end, or a character that
        // is not whitespace.
        if j < b.len() {
            lemma_step(b, j);
            let wj = width(b[j]);
            assert(rest == b.subrange(j, j + wj) + collapse_from(b, j + wj, r));
            assert forall|k: int| j <= k < j + wj implies o[(q + l) + k - j] == b[k] by {
                assert(o.subrange(q + l, o.len() as int)[k - j] == rest[k - j]);
            }
            lemma_ws_width_local(b, j, o, q + l);
        } else {
            assert(rest.len() == 0);
        }
        lemma_collapse_rescan(b, j, r, o, q + l);
        match r {
            Some(t) => {
                if l > 0 {
                    lemma_valid_shaped(t);
                    lemma_skip_copied_space(o, q, t, 0);
                    assert(boundary(t, 0));
                    lemma_step(t, 0);
                    assert forall|k: int| 0 <= k < width(t[0]) implies o[q + k - 0] == t[k] by {}
                    lemma_ws_width_local(t, 0, o, q);
                    lemma_ws_width(t, 0);
                    assert(collapse_from(o, q, r) == t + collapse_from(o, q + l, r));
                } else {
                    assert(text + rest =~= rest);
                    assert(collapse_from(o, q, r) == collapse_from(o, q + l, r));
                }
            },
            None => {
                let rk = run_rank(b, i);
                lemma_run_rank_bounds(b, i);
                let x = rank_byte(rk);
                assert(text[0] == x);
                assert(o[q + 0] == text[0]);
                assert(o[q] == x);
                lemma_ascii_scalar(x);
                assert(ws_width(o, q) == 1);
                assert(run_rank(o, q + 1) == 0);
                assert(run_rank(o, q) == rk);
                assert(skip_ws(o, q + 1, o.len() as int) == q + 1);
                assert(collapse_from(o, q, r) == seq![x] + collapse_from(o, q + 1, r));
            },
        }
    } else {
        let rest = collapse_from(b, i + w, r);
        assert(out == b.subrange(i, i + w) + rest);
        assert forall|k: int| i <= k < i + w implies o[q + k - i] == b[k] by {
            assert(o.subrange(q, o.len() as int)[k - i] == out[k - i]);
        }
        lemma_ws_width_local(b, i, o, q);
        assert(o.subrange(q + w, o.len() as int) =~= rest) by {
            assert forall|k: int| 0 <= k < rest.len() implies #[trigger] o.subrange(
                q + w,
                o.len() as int,
            )[k] == rest[k] by {
                assert(o.subrange(q, o.len() as int)[w + k] == out[w + k]);
            }
        }
        lemma_collapse_rescan(b, i + w, r, o, q + w);
        assert(o.subrange(q, q + w) =~= b.subrange(i, i + w));
    }
}

/// Collapsing twice is collapsing once, with the one-character collapse and
/// with any replacement made only of whitespace (`""` and `" "` among them).
pub proof fn lemma_collapse_idempotent(b: Seq<u8>, r: Option<Seq<u8>>)
    requires
        valid_utf8(b),
        r matches Some(t) ==> spaces_only(t),
    ensures
        collapsed(collapsed(b, r), r) == collapsed(b, r),
{
    lemma_valid_shaped(b);
    let o = collapsed(b, r);
    assert(o.subrange(0, o.len() as int) =~= o);
    lemma_collapse_rescan(b, 0, r, o, 0);
}

/// A copied stretch without LF, followed by an LF or by the end, ends a line
/// at the same place in the copy.
proof fn lemma_line_end_copied(b: Seq<u8>, i: int, le: int, o: Seq<u8>, q: int, x: int)
    requires
        0 <= i <= x <= le <= b.len(),
        0 <= q,
        q + (le - i) <= o.len(),
        forall|k: int| i <= k < le ==> o[q + k - i] == b[k] && b[k] != 10u8,
        q + (le - i) == o.len() || o[q + (le - i)] == 10u8,
    ensures
        line_end(o, q + (x - i)) == q + (le - i),
    decreases le - x,
{
    if x < le {
        assert(o[q + x - i] == b[x]);
        lemma_line_end_copied(b, i, le, o, q, x + 1);
    }
}

proof fn lemma_nonempty_rescan(b: Seq<u8>, i: int, o: Seq<u8>, q: int)
    requires
        0 <= i <= b.len(),
        0 <= q <= o.len(),
        o.subrange(q, o.len() as int) == nonempty_lines_from(b, i),
    ensures
        nonempty_lines_from(o, q) == nonempty_lines_from(b, i),
    decreases b.len() - i,
{
    let out = nonempty_lines_from(b, i);
    if i >= b.len() {
        assert(out.len() == 0);
        return;
    }
    lemma_line_parts(b, i);
    lemma_line_end(b, i);
    let le = line_end(b, i);
    let ls = line_stop(b, i);
    let rest = nonempty_lines_from(b, ls);
    if content_stop(b, i) > i {
        let l = ls - i;
        assert(out == b.subrange(i, ls) + rest);
        assert forall|k: int| i <= k < ls implies o[q + k - i] == b[k] by {
            assert(o.subrange(q, o.len() as int)[k - i] == out[k - i]);
        }
        assert(o.subrange(q + l, o.len() as int) =~= rest) by {
            assert forall|k: int| 0 <= k < rest.len() implies #[trigger] o.subrange(
                q + l,
                o.len() as int,
            )[k] == rest[k] by {
                assert(o.subrange(q, o.len() as int)[l + k] == out[l + k]);
            }
        }
        if le == b.len() {
            assert(rest.len() == 0);
        }
        lemma_line_end_copied(b, i, le, o, q, i);
        lemma_nonempty_rescan(b, ls, o, q + l);
        lemma_line_parts(o, q);
        if le > i {
            assert(o[q + (le - 1) - i] == b[le - 1]);
        }
        assert(o.subrange(q, q + l) =~= b.subrange(i, ls));
    } else {
        assert(out =~= rest);
        lemma_nonempty_rescan(b, ls, o, q);
    }
}

/// Removing empty lines twice is removing them once.
pub proof fn lemma_remove_empty_lines_idempotent(b: Seq<u8>)
    ensures
        without_empty_lines(without_empty_lines(b)) == without_empty_lines(b),
{
    let o = without_empty_lines(b);
    assert(o.subrange(0, o.len() as int) =~= o);
    lemma_nonempty_rescan(b, 0, o, 0);
}

proof fn lemma_replace_from_absent(b: Seq<u8>, i: int, f: Seq<u8>, t: Seq<u8>)
    requires
        shaped(b),
        boundary(b, i),
        f.len() > 0,
        forall|k: int| 0 <= k <= b.len() ==> !matches_at(b, k, f),
    ensures
        replace_from(b, i, f, t) == b.subrange(i, b.len() as int),
    decreases b.len() - i,
{
    assert(!matches_at(b, i, f));
    if i < b.len() {
        lemma_step(b, i);
        let w = width(b[i]);
        lemma_replace_from_absent(b, i + w, f, t);
        assert(Seq::<u8>::empty() + b.subrange(i, i + w) + b.subrange(i + w, b.len() as int)
            =~= b.subrange(i, b.len() as int));
    } else {
        assert(b.subrange(i, b.len() as int) =~= Seq::<u8>::empty());
    }
}

/// Replacing a text that does not occur changes nothing.
pub proof fn lemma_replace_absent_keeps_text(b: Seq<u8>, from: Seq<u8>, to: Seq<u8>)
    requires
        valid_utf8(b),
        from.len() > 0,
        forall|k: int| 0 <= k <= b.len() ==> !matches_at(b, k, from),
    ensures
        replaced(b, from, to) == b,
{
    lemma_valid_shaped(b);
    lemma_replace_from_absent(b, 0, from, to);
    assert(b.subrange(0, b.len() as int) =~= b);
}

/// No character of `o` from `q` on is whitespace.
pub open spec fn no_space_from(o: Seq<u8>, q: int) -> bool {
    forall|k: int| #![trigger boundary(o, k)] boundary(o, k) && q <= k < o.len() ==> ws_width(o, k) == 0
}

proof fn lemma_collapse_empty_no_space(b: Seq<u8>, i: int, o: Seq<u8>, q: int)
    requires
        shaped(b),
        shaped(o),
        boundary(b, i),
        0 <= q <= o.len(),
        o.subrange(q, o.len() as int) == collapse_from(b, i, Some(Seq::<u8>::empty())),
    ensures
        no_space_from(o, q),
    decreases b.len() - i,
{
    let r = Some(Seq::<u8>::empty());
    let out = collapse_from(b, i, r);
    if i >= b.len() {
        assert(out.len() == 0);
        return;
    }
    lemma_step(b, i);
    lemma_ws_width(b, i);
    let w = width(b[i]);
    if ws_width(b, i) > 0 {
        let j = skip_ws(b, i, b.len() as int);
        lemma_skip_ws(b, i, b.len() as int);
        lemma_skip_ws_bounds(b, i, b.len() as int);
        assert(out =~= collapse_from(b, j, r));
        lemma_collapse_empty_no_space(b, j, o, q);
    } else {
        let rest = collapse_from(b, i + w, r);
        assert(out == b.subrange(i, i + w) + rest);
        assert forall|k: int| i <= k < i + w implies o[q + k - i] == b[k] by {
            assert(o.subrange(q, o.len() as int)[k - i] == out[k - i]);
        }
        lemma_ws_width_local(b, i, o, q);
        assert(o.subrange(q + w, o.len() as int) =~= rest) by {
            assert forall|k: int| 0 <= k < rest.len() implies #[trigger] o.subrange(
                q + w,
                o.len() as int,
            )[k] == rest[k] by {
                assert(o.subrange(q, o.len() as int)[w + k] == out[w + k]);
            }
        }
        lemma_collapse_empty_no_space(b, i + w, o, q + w);
        assert forall|k: int| #![trigger boundary(o, k)]
            boundary(o, k) && q <= k < o.len() implies ws_width(o, k) == 0 by {
            if q < k < q + w {
                assert(o[q + k - q] == b[i + (k - q)]);
                assert(is_continuation_byte(b[i + (k - q)]));
            }
        }
    }
}

/// Collapsing with an empty replacement removes every whitespace character.
pub proof fn lemma_collapse_empty_removes_whitespace(b: Seq<u8>)
    requires
        valid_utf8(b),
    ensures
        forall|k: int| #![trigger boundary(collapsed(b, Some(Seq::<u8>::empty())), k)]
            boundary(collapsed(b, Some(Seq::<u8>::empty())), k) && 0 <= k < collapsed(
                b,
                Some(Seq::<u8>::empty()),
            ).len() ==> ws_width(collapsed(b, Some(Seq::<u8>::empty())), k) == 0,
{
    let o = collapsed(b, Some(Seq::<u8>::empty()));
    lemma_valid_shaped(b);
    lemma_valid_ascii(Seq::<u8>::empty());
    lemma_collapsed_utf8(b, Some(Seq::<u8>::empty()));
    lemma_valid_shaped(o);
    assert(o.subrange(0, o.len() as int) =~= o);
    lemma_collapse_empty_no_space(b, 0, o, 0);
}

proof fn lemma_line_end_appended(b: Seq<u8>, i: int)
    requires
        0 <= i <= b.len(),
    ensures
        line_end(b.push(10u8), i) == line_end(b, i),
    decreases b.len() - i,
{
    if i < b.len() && b[i] != 10u8 {
        lemma_line_end_appended(b, i + 1);
    }
}

proof fn lemma_lines_from_appended(b: Seq<u8>, i: int)
    requires
        0 <= i < b.len(),
        b.len() > 0,
        b.last() != 10u8,
        b.last() != 13u8,
    ensures
        lines_from(b.push(10u8), i) == lines_from(b, i),
    decreases b.len() - i,
{
    let c = b.push(10u8);
    {
        lemma_line_end_appended(b, i);
        lemma_line_parts(b, i);
        lemma_line_parts(c, i);
        lemma_line_end(b, i);
        let le = line_end(b, i);
        if le < b.len() {
            assert(le + 1 < b.len());
            lemma_lines_from_appended(b, le + 1);
        } else {
            assert(lines_from(b, b.len() as int) =~= Seq::<Seq<u8>>::empty());
            assert(lines_from(c, c.len() as int) =~= Seq::<Seq<u8>>::empty());
        }
        assert(c.subrange(i, content_stop(c, i)) =~= b.subrange(i, content_stop(b, i)));
    }
}

/// A final line ending adds no line: a text that ends with a character other
/// than CR or LF has the same lines with an LF after it.
pub proof fn lemma_final_line_ending_adds_no_line(b: Seq<u8>)
    requires
        b.len() > 0,
        b.last() != 10u8,
        b.last() != 13u8,
    ensures
        lines_of(b.push(10u8)) == lines_of(b),
{
    lemma_lines_from_appended(b, 0);
}

/// A line with some content.
pub open spec fn nonempty_line(line: Seq<u8>) -> bool {
    line.len() > 0
}

proof fn lemma_lines_of_nonempty(b: Seq<u8>, i: int, o: Seq<u8>, q: int)
    requires
        0 <= i <= b.len(),
        0 <= q <= o.len(),
        o.subrange(q, o.len() as int) == nonempty_lines_from(b, i),
    ensures
        lines_from(o, q) == lines_from(b, i).filter(|line: Seq<u8>| nonempty_line(line)),
    decreases b.len() - i,
{
    let pred = |line: Seq<u8>| nonempty_line(line);
    let out = nonempty_lines_from(b, i);
    if i >= b.len() {
        assert(out.len() == 0);
        assert(lines_from(b, i) =~= Seq::<Seq<u8>>::empty());
        assert(Seq::<Seq<u8>>::empty().filter(pred) =~= Seq::<Seq<u8>>::empty()) by {
            reveal(Seq::filter);
        }
        return;
    }
    lemma_line_parts(b, i);
    lemma_line_end(b, i);
    let le = line_end(b, i);
    let ls = line_stop(b, i);
    let cs = content_stop(b, i);
    let line = b.subrange(i, cs);
    let rest = nonempty_lines_from(b, ls);
    assert(lines_from(b, i) == seq![line] + lines_from(b, ls));
    Seq::filter_distributes_over_add(seq![line], lines_from(b, ls), pred);
    assert(seq![line].filter(pred) == (if nonempty_line(line) {
        seq![line]
    } else {
        Seq::<Seq<u8>>::empty()
    })) by {
        reveal(Seq::filter);
        assert(seq![line].drop_last() =~= Seq::<Seq<u8>>::empty());
        assert(Seq::<Seq<u8>>::empty().filter(pred) =~= Seq::<Seq<u8>>::empty());
    }
    if cs > i {
        let l = ls - i;
        assert(out == b.subrange(i, ls) + rest);
        assert forall|k: int| i <= k < ls implies o[q + k - i] == b[k] by {
            assert(o.subrange(q, o.len() as int)[k - i] == out[k - i]);
        }
        assert(o.subrange(q + l, o.len() as int) =~= rest) by {
            assert forall|k: int| 0 <= k < rest.len() implies #[trigger] o.subrange(
                q + l,
                o.len() as int,
            )[k] == rest[k] by {
                assert(o.subrange(q, o.len() as int)[l + k] == out[l + k]);
            }
        }
        if le == b.len() {
            assert(rest.len() == 0);
        }
        lemma_line_end_copied(b, i, le, o, q, i);
        lemma_lines_of_nonempty(b, ls, o, q + l);
        lemma_line_parts(o, q);
        if le > i {
            assert(o[q + (le - 1) - i] == b[le - 1]);
        }
        assert(o.subrange(q, content_stop(o, q)) =~= line);
        assert(lines_from(o, q) == seq![o.subrange(q, content_stop(o, q))] + lines_from(o, q + l));
    } else {
        assert(out =~= rest);
        lemma_lines_of_nonempty(b, ls, o, q);
        assert(Seq::<Seq<u8>>::empty() + lines_from(b, ls).filter(pred) =~= lines_from(b, ls).filter(pred));
    }
}

/// Removing empty lines keeps exactly the lines with some content, in order.
pub proof fn lemma_remove_empty_lines_keeps_nonempty_lines(b: Seq<u8>)
    ensures
        lines_of(without_empty_lines(b)) == lines_of(b).filter(|line: Seq<u8>| nonempty_line(line)),
{
    let o = without_empty_lines(b);
    assert(o.subrange(0, o.len() as int) =~= o);
    lemma_lines_of_nonempty(b, 0, o, 0);
}

/// A whitespace run is found again in a slice that contains it.
proof fn lemma_skip_ws_slice(b: Seq<u8>, x: int, y: int, p: int, limit: int)
    requires
        shaped(b),
        boundary(b, x),
        boundary(b, y),
        boundary(b, p),
        boundary(b, limit),
        x <= p <= limit <= y,
    ensures
        skip_ws(b.subrange(x, y), p - x, limit - x) == skip_ws(b, p, limit) - x,
    decreases b.len() - p,
{
    let t = b.subrange(x, y);
    if p < limit {
        lemma_step_within(b, p, limit);
        lemma_step(b, p);
        lemma_ws_width(b, p);
        assert forall|k: int| p <= k < p + width(b[p]) implies t[(p - x) + k - p] == b[k] by {}
        lemma_ws_width_local(b, p, t, p - x);
        if ws_width(b, p) > 0 {
            lemma_skip_ws_slice(b, x, y, p + width(b[p]), limit);
        }
    }
}

/// The content end is found again in a slice that contains it.
proof fn lemma_content_end_slice(b: Seq<u8>, x: int, y: int, p: int, c: int, limit: int)
    requires
        shaped(b),
        boundary(b, x),
        boundary(b, y),
        boundary(b, p),
        boundary(b, limit),
        x <= c <= p <= limit <= y,
    ensures
        content_end(b.subrange(x, y), p - x, c - x, limit - x) == content_end(b, p, c, limit) - x,
    decreases b.len() - p,
{
    let t = b.subrange(x, y);
    if p < limit {
        lemma_step_within(b, p, limit);
        lemma_step(b, p);
        lemma_ws_width(b, p);
        let w = width(b[p]);
        assert forall|k: int| p <= k < p + w implies t[(p - x) + k - p] == b[k] by {}
        lemma_ws_width_local(b, p, t, p - x);
        if ws_width(b, p) == 0 {
            lemma_content_end_slice(b, x, y, p + w, p + w, limit);
        } else {
            lemma_content_end_slice(b, x, y, p + w, c, limit);
        }
    }
}

/// A whitespace character at the very end of the limit changes a whitespace
/// run only when the run reaches it.
proof fn lemma_skip_ws_last_space(b: Seq<u8>, p: int, limit: int)
    requires
        shaped(b),
        boundary(b, p),
        boundary(b, limit - 1),
        boundary(b, limit),
        p <= limit - 1,
        limit <= b.len(),
        width(b[limit - 1]) == 1,
        ws_width(b, limit - 1) > 0,
    ensures
        skip_ws(b, p, limit) == if skip_ws(b, p, limit - 1) == limit - 1 {
            limit
        } else {
            skip_ws(b, p, limit - 1)
        },
    decreases b.len() - p,
{
    lemma_step(b, p);
    lemma_ws_width(b, p);
    if p < limit - 1 {
        lemma_step_within(b, p, limit - 1);
        if ws_width(b, p) > 0 {
            lemma_skip_ws_last_space(b, p + width(b[p]), limit);
        }
    } else {
        lemma_ws_width(b, limit - 1);
        assert(skip_ws(b, limit, limit) == limit);
        assert(skip_ws(b, limit - 1, limit - 1) == limit - 1);
    }
}

/// A whitespace character at the very end of the limit never moves the
/// content end.
proof fn lemma_content_end_last_space(b: Seq<u8>, p: int, c: int, limit: int)
    requires
        shaped(b),
        boundary(b, p),
        boundary(b, limit - 1),
        boundary(b, limit),
        p <= limit - 1,
        limit <= b.len(),
        width(b[limit - 1]) == 1,
        ws_width(b, limit - 1) > 0,
    ensures
        content_end(b, p, c, limit) == content_end(b, p, c, limit - 1),
    decreases b.len() - p,
{
    lemma_step(b, p);
    if p < limit - 1 {
        lemma_step_within(b, p, limit - 1);
        if ws_width(b, p) == 0 {
            lemma_content_end_last_space(b, p + width(b[p]), p + width(b[p]), limit);
        } else {
            lemma_content_end_last_space(b, p + width(b[p]), c, limit);
        }
    } else {
        lemma_step(b, limit - 1);
        assert(content_end(b, limit, c, limit) == c);
    }
}

/// The trimmed line that `trim_lines` writes is the line, as `lines` gives
/// it, trimmed.
proof fn lemma_trimmed_line_is_trimmed(b: Seq<u8>, i: int)
    requires
        shaped(b),
        boundary(b, i),
        i < b.len(),
    ensures
        trimmed(b.subrange(i, content_stop(b, i))) == trimmed_line(b, i, line_end(b, i)),
{
    lemma_line_parts(b, i);
    lemma_line_end(b, i);
    let le = line_end(b, i);
    let cs = content_stop(b, i);
    if le < b.len() {
        lemma_ascii_boundary(b, le);
    }
    if cs < le {
        assert(b[cs] == 13u8);
        lemma_ascii_scalar(13u8);
    }
    assert(boundary(b, cs));
    let t = b.subrange(i, cs);
    lemma_skip_ws(b, i, cs);
    lemma_skip_ws_slice(b, i, cs, i, cs);
    let s = skip_ws(b, i, cs);
    lemma_content_end(b, s, s, cs);
    lemma_content_end_slice(b, i, cs, s, s, cs);
    let ce = content_end(b, s, s, cs);
    assert(trim_start(t) == s - i);
    assert(trim_end(t) == ce - i);
    assert(trimmed(t) =~= b.subrange(s, ce));
    if cs < le {
        lemma_skip_ws_last_space(b, i, le);
        if s == cs {
            assert(skip_ws(b, i, le) == le);
            assert(content_end(b, le, le, le) == le);
            assert(content_end(b, cs, cs, cs) == cs);
        } else {
            lemma_content_end_last_space(b, s, s, le);
        }
    }
}

/// No LF from `q` up to `e`, and an LF or the end at `e`: the line from `q`
/// ends at `e`.
proof fn lemma_line_end_at(o: Seq<u8>, q: int, e: int)
    requires
        0 <= q <= e <= o.len(),
        forall|k: int| q <= k < e ==> o[k] != 10u8,
        e == o.len() || o[e] == 10u8,
    ensures
        line_end(o, q) == e,
    decreases e - q,
{
    if q < e {
        lemma_line_end_at(o, q + 1, e);
    }
}

/// The last byte of a nonempty trimmed line is not a CR.
proof fn lemma_trimmed_line_last(b: Seq<u8>, i: int, le: int)
    requires
        shaped(b),
        boundary(b, i),
        boundary(b, le),
        i <= le,
        trimmed_line(b, i, le).len() > 0,
    ensures
        trimmed_line(b, i, le).last() != 13u8,
{
    lemma_skip_ws(b, i, le);
    let s = skip_ws(b, i, le);
    lemma_content_end(b, s, s, le);
    lemma_content_end_space_after(b, s, s, le);
    let ce = content_end(b, s, s, le);
    let k = choose|k: int| #![trigger boundary(b, k)]
        boundary(b, k) && s <= k < ce && k + width(b[k]) == ce && ws_width(b, k) == 0;
    lemma_step(b, k);
    assert(trimmed_line(b, i, le).last() == b[ce - 1]);
    if k == ce - 1 {
        if b[k] == 13u8 {
            lemma_ascii_scalar(13u8);
        }
    } else {
        assert(is_continuation_byte(b[ce - 1]));
    }
}

proof fn lemma_trim_lines_lines(b: Seq<u8>, i: int, o: Seq<u8>, q: int)
    requires
        shaped(b),
        boundary(b, i),
        0 <= q <= o.len(),
        o.subrange(q, o.len() as int) == trim_lines_from(b, i),
    ensures
        lines_from(o, q).len() == lines_from(b, i).len() || (lines_from(o, q).len() + 1
            == lines_from(b, i).len() && trimmed(lines_from(b, i).last()).len() == 0),
        forall|k: int| 0 <= k < lines_from(o, q).len() ==> #[trigger] lines_from(o, q)[k] == trimmed(
            lines_from(b, i)[k],
        ),
    decreases b.len() - i,
{
    let out = trim_lines_from(b, i);
    if i >= b.len() {
        assert(out.len() == 0);
        return;
    }
    lemma_line_parts(b, i);
    lemma_line_end(b, i);
    let le = line_end(b, i);
    let ls = line_stop(b, i);
    let line = b.subrange(i, content_stop(b, i));
    let tl = trimmed_line(b, i, le);
    lemma_trimmed_line_is_trimmed(b, i);
    lemma_skip_ws(b, i, le);
    let s = skip_ws(b, i, le);
    if le < b.len() {
        lemma_ascii_boundary(b, le);
    }
    lemma_content_end(b, s, s, le);
    assert(lines_from(b, i) == seq![line] + lines_from(b, ls));
    let n = tl.len() as int;
    assert forall|k: int| 0 <= k < n implies tl[k] != 10u8 by {
        assert(tl[k] == b[s + k]);
    }
    if le < b.len() {
        let brk = line_break(b, le);
        let rest = trim_lines_from(b, le + 1);
        let m = brk.len() as int;
        assert(out == tl + brk + rest);
        assert forall|k: int| 0 <= k < n implies o[q + k] == tl[k] by {
            assert(o.subrange(q, o.len() as int)[k] == out[k]);
        }
        assert forall|k: int| 0 <= k < m implies o[q + n + k] == brk[k] by {
            assert(o.subrange(q, o.len() as int)[n + k] == out[n + k]);
        }
        assert(o.subrange(q + n + m, o.len() as int) =~= rest) by {
            assert forall|k: int| 0 <= k < rest.len() implies #[trigger] o.subrange(
                q + n + m,
                o.len() as int,
            )[k] == rest[k] by {
                assert(o.subrange(q, o.len() as int)[n + m + k] == out[n + m + k]);
            }
        }
        let lf = q + n + m - 1;
        assert(brk[m - 1] == 10u8);
        assert(o[q + n + (m - 1)] == brk[m - 1]);
        assert(o[lf] == 10u8);
        assert forall|k: int| q <= k < lf implies o[k] != 10u8 by {
            if k < q + n {
                assert(o[q + (k - q)] == tl[k - q]);
            } else {
                assert(o[q + n + (k - q - n)] == brk[k - q - n]);
            }
        }
        lemma_line_end_at(o, q, lf);
        lemma_line_parts(o, q);
        if m == 1 && n > 0 {
            lemma_trimmed_line_last(b, i, le);
            assert(o[q + (n - 1)] == tl[n - 1]);
        }
        assert(content_stop(o, q) == q + n);
        assert(o.subrange(q, q + n) =~= tl);
        lemma_ascii_boundary(b, le);
        lemma_trim_lines_lines(b, le + 1, o, q + n + m);
        let ys = lines_from(o, q + n + m);
        let xs = lines_from(b, le + 1);
        assert(lines_from(o, q) == seq![tl] + ys);
        assert(ls == le + 1);
        if xs.len() > 0 {
            assert((seq![line] + xs).last() == xs.last());
        }
        assert forall|k: int| 0 <= k < lines_from(o, q).len() implies #[trigger] lines_from(o, q)[k]
            == trimmed(lines_from(b, i)[k]) by {
            if k > 0 {
                assert(lines_from(o, q)[k] == ys[k - 1]);
                assert(lines_from(b, i)[k] == xs[k - 1]);
            }
        }
    } else {
        assert(out == tl);
        assert(lines_from(b, ls) =~= Seq::<Seq<u8>>::empty());
        assert(o.len() == q + n);
        assert forall|k: int| 0 <= k < n implies o[q + k] == tl[k] by {
            assert(o.subrange(q, o.len() as int)[k] == out[k]);
        }
        if n > 0 {
            assert forall|k: int| q <= k < q + n implies o[k] != 10u8 by {
                assert(o[q + (k - q)] == tl[k - q]);
            }
            lemma_line_end_at(o, q, q + n);
            lemma_line_parts(o, q);
            assert(o.subrange(q, q + n) =~= tl);
            assert(lines_from(o, q + n) =~= Seq::<Seq<u8>>::empty());
            assert(lines_from(o, q) == seq![tl] + lines_from(o, q + n));
        } else {
            assert(lines_from(o, q) =~= Seq::<Seq<u8>>::empty());
            assert(lines_from(b, i) =~= seq![line]);
        }
    }
}

/// Each line of the output of `trim_lines` is the matching line of its input,
/// trimmed. The output has the same number of lines, except that a last line
/// without a line ending that is only whitespace trims to nothing and so is
/// no longer a line.
pub proof fn lemma_trim_lines_trims_each_line(b: Seq<u8>)
    requires
        valid_utf8(b),
    ensures
        lines_of(trimmed_lines(b)).len() == lines_of(b).len() || (lines_of(trimmed_lines(b)).len()
            + 1 == lines_of(b).len() && trimmed(lines_of(b).last()).len() == 0),
        forall|k: int| 0 <= k < lines_of(trimmed_lines(b)).len() ==> #[trigger] lines_of(
            trimmed_lines(b),
        )[k] == trimmed(lines_of(b)[k]),
{
    lemma_valid_shaped(b);
    let o = trimmed_lines(b);
    assert(o.subrange(0, o.len() as int) =~= o);
    lemma_trim_lines_lines(b, 0, o, 0);
}

/// `line` without `prefix`, when it starts with it.
pub open spec fn without_prefix(line: Seq<u8>, prefix: Seq<u8>) -> Seq<u8> {
    if prefix.len() <= line.len() && line.subrange(0, prefix.len() as int) == prefix {
        line.subrange(prefix.len() as int, line.len() as int)
    } else {
        line
    }
}

/// Prefix removal, line by line: the line that starts at `i` loses its
/// prefix, keeps its LF, and the next line follows.
proof fn lemma_strip_prefix_line(b: Seq<u8>, i: int, prefix: Seq<u8>)
    requires
        0 <= i < b.len(),
        !has_line_break(prefix),
    ensures
        ({
            let le = line_end(b, i);
            let j = if matches_at(b, i, prefix) {
                i + prefix.len()
            } else {
                i
            };
            &&& i <= j <= le
            &&& strip_prefix_from(b, i, true, prefix) == if le < b.len() {
                b.subrange(j, le) + seq![10u8] + strip_prefix_from(b, le + 1, true, prefix)
            } else {
                b.subrange(j, le)
            }
        }),
{
    lemma_line_end(b, i);
    let le = line_end(b, i);
    let j = if matches_at(b, i, prefix) {
        i + prefix.len()
    } else {
        i
    };
    if matches_at(b, i, prefix) && i + prefix.len() > le {
        assert(b.subrange(i, i + prefix.len())[le - i] == prefix[le - i]);
        assert(b[le] == 10u8);
        assert(has_line_break(prefix));
    }
    if j < b.len() {
        if j == le {
            assert(b.subrange(j, le) =~= Seq::<u8>::empty());
            assert(strip_prefix_from(b, i, true, prefix) == seq![b[j]] + strip_prefix_from(
                b,
                j + 1,
                true,
                prefix,
            ));
        } else {
            lemma_strip_prefix_copy(b, j + 1, le, prefix);
            assert(strip_prefix_from(b, i, true, prefix) == seq![b[j]] + strip_prefix_from(
                b,
                j + 1,
                false,
                prefix,
            ));
            if le < b.len() {
                assert(strip_prefix_from(b, le, false, prefix) == seq![10u8] + strip_prefix_from(
                    b,
                    le + 1,
                    true,
                    prefix,
                ));
                assert(seq![b[j]] + (b.subrange(j + 1, le) + (seq![10u8] + strip_prefix_from(
                    b,
                    le + 1,
                    true,
                    prefix,
                ))) =~= b.subrange(j, le) + seq![10u8] + strip_prefix_from(b, le + 1, true, prefix));
            } else {
                assert(strip_prefix_from(b, le, false, prefix) =~= Seq::<u8>::empty());
                assert(seq![b[j]] + (b.subrange(j + 1, le) + Seq::<u8>::empty()) =~= b.subrange(
                    j,
                    le,
                ));
            }
        }
    } else {
        assert(b.subrange(j, le) =~= Seq::<u8>::empty());
    }
}

proof fn lemma_prefix_lines(b: Seq<u8>, i: int, prefix: Seq<u8>, o: Seq<u8>, q: int)
    requires
        0 <= i <= b.len(),
        (i == 0 || b[i - 1] == 10u8),
        !has_line_break(prefix),
        0 <= q <= o.len(),
        o.subrange(q, o.len() as int) == (if i < b.len() {
            strip_prefix_from(b, i, true, prefix)
        } else {
            Seq::<u8>::empty()
        }),
    ensures
        lines_from(o, q).len() == lines_from(b, i).len() || (lines_from(o, q).len() + 1
            == lines_from(b, i).len() && without_prefix(lines_from(b, i).last(), prefix).len()
            == 0),
        forall|k: int| 0 <= k < lines_from(o, q).len() ==> #[trigger] lines_from(o, q)[k]
            == without_prefix(lines_from(b, i)[k], prefix),
    decreases b.len() - i,
{
    if i >= b.len() {
        assert(o.subrange(q, o.len() as int).len() == 0);
        return;
    }
    let out = strip_prefix_from(b, i, true, prefix);
    lemma_strip_prefix_line(b, i, prefix);
    lemma_line_parts(b, i);
    lemma_line_end(b, i);
    let le = line_end(b, i);
    let ls = line_stop(b, i);
    let cs = content_stop(b, i);
    let line = b.subrange(i, cs);
    let j = if matches_at(b, i, prefix) {
        i + prefix.len()
    } else {
        i
    };
    // The prefix lies inside the content: it holds no CR.
    if matches_at(b, i, prefix) && j > cs {
        assert(b.subrange(i, i + prefix.len())[cs - i] == prefix[cs - i]);
        assert(has_line_break(prefix));
    }
    assert(j <= cs);
    assert(without_prefix(line, prefix) =~= b.subrange(j, cs)) by {
        if matches_at(b, i, prefix) {
            assert(line.subrange(0, prefix.len() as int) =~= b.subrange(i, i + prefix.len()));
        } else if prefix.len() <= line.len() && line.subrange(0, prefix.len() as int) == prefix {
            assert(b.subrange(i, i + prefix.len()) =~= line.subrange(0, prefix.len() as int));
        }
    }
    let n = le - j;
    assert(lines_from(b, i) == seq![line] + lines_from(b, ls));
    if le < b.len() {
        let rest_b = if le + 1 < b.len() {
            strip_prefix_from(b, le + 1, true, prefix)
        } else {
            Seq::<u8>::empty()
        };
        assert(out == b.subrange(j, le) + seq![10u8] + strip_prefix_from(b, le + 1, true, prefix));
        if le + 1 >= b.len() {
            assert(strip_prefix_from(b, le + 1, true, prefix) =~= Seq::<u8>::empty());
        }
        assert forall|k: int| j <= k < le implies o[q + k - j] == b[k] by {
            assert(o.subrange(q, o.len() as int)[k - j] == out[k - j]);
        }
        assert(o.subrange(q, o.len() as int)[n] == out[n]);
        assert(o[q + n] == 10u8);
        assert(o.subrange(q + n + 1, o.len() as int) =~= rest_b) by {
            assert forall|k: int| 0 <= k < rest_b.len() implies #[trigger] o.subrange(
                q + n + 1,
                o.len() as int,
            )[k] == rest_b[k] by {
                assert(o.subrange(q, o.len() as int)[n + 1 + k] == out[n + 1 + k]);
            }
        }
        lemma_line_end_copied(b, j, le, o, q, j);
        lemma_line_parts(o, q);
        if le > j {
            assert(o[q + (le - 1) - j] == b[le - 1]);
        }
        assert(o.subrange(q, content_stop(o, q)) =~= b.subrange(j, cs));
        lemma_prefix_lines(b, le + 1, prefix, o, q + n + 1);
        let ys = lines_from(o, q + n + 1);
        let xs = lines_from(b, le + 1);
        assert(lines_from(o, q) == seq![b.subrange(j, cs)] + ys);
        if xs.len() > 0 {
            assert((seq![line] + xs).last() == xs.last());
        }
        assert forall|k: int| 0 <= k < lines_from(o, q).len() implies #[trigger] lines_from(o, q)[k]
            == without_prefix(lines_from(b, i)[k], prefix) by {
            if k > 0 {
                assert(lines_from(o, q)[k] == ys[k - 1]);
                assert(lines_from(b, i)[k] == xs[k - 1]);
            }
        }
    } else {
        assert(out == b.subrange(j, le));
        assert forall|k: int| j <= k < le implies o[q + k - j] == b[k] by {
            assert(o.subrange(q, o.len() as int)[k - j] == out[k - j]);
        }
        assert(lines_from(b, ls) =~= Seq::<Seq<u8>>::empty());
        assert(o.len() == q + n);
        if n > 0 {
            lemma_line_end_copied(b, j, le, o, q, j);
            lemma_line_parts(o, q);
            assert(o.subrange(q, q + n) =~= b.subrange(j, cs));
            assert(lines_from(o, q + n) =~= Seq::<Seq<u8>>::empty());
            assert(lines_from(o, q) == seq![b.subrange(j, cs)] + lines_from(o, q + n));
        } else {
            assert(lines_from(o, q) =~= Seq::<Seq<u8>>::empty());
            assert(lines_from(b, i) =~= seq![line]);
        }
    }
}

/// Prefix removal works line by line: each line of the output is the
/// matching line of the input without the prefix when it starts with it,
/// and unchanged otherwise. The output has the same number of lines, except
/// that a last line without a line ending that is exactly the prefix becomes
/// empty and so is no longer a line.
pub proof fn lemma_strip_prefix_works_per_line(b: Seq<u8>, prefix: Seq<u8>)
    requires
        !has_line_break(prefix),
    ensures
        lines_of(prefix_stripped(b, prefix)).len() == lines_of(b).len() || (lines_of(
            prefix_stripped(b, prefix),
        ).len() + 1 == lines_of(b).len() && without_prefix(lines_of(b).last(), prefix).len() == 0),
        forall|k: int| 0 <= k < lines_of(prefix_stripped(b, prefix)).len() ==> #[trigger] lines_of(
            prefix_stripped(b, prefix),
        )[k] == without_prefix(lines_of(b)[k], prefix),
{
    let o = prefix_stripped(b, prefix);
    if b.len() == 0 {
        assert(o.len() == 0);
    }
    assert(o.subrange(0, o.len() as int) =~= o);
    lemma_prefix_lines(b, 0, prefix, o, 0);
}

/// The segments joined back with one LF between each two.
pub open spec fn joined(segments: Seq<Seq<u8>>) -> Seq<u8>
    decreases segments.len(),
{
    if segments.len() <= 1 {
        if segments.len() == 1 {
            segments[0]
        } else {
            Seq::empty()
        }
    } else {
        segments[0] + seq![10u8] + joined(segments.drop_first())
    }
}

/// `line` without one `suffix` at its end, when it ends with it.
pub open spec fn without_suffix(line: Seq<u8>, suffix: Seq<u8>) -> Seq<u8> {
    if suffix.len() <= line.len() && line.subrange(line.len() - suffix.len(), line.len() as int)
        == suffix {
        line.subrange(0, line.len() - suffix.len())
    } else {
        line
    }
}

/// A segment of a text split at its LF bytes, with `suffix` removed from the
/// end of its content. A segment that an LF follows keeps a final CR, which
/// belongs to its CRLF ending; in the last segment a CR is content.
pub open spec fn segment_without_suffix(segment: Seq<u8>, suffix: Seq<u8>, last: bool) -> Seq<u8> {
    if !last && segment.len() > 0 && segment.last() == 13u8 {
        without_suffix(segment.drop_last(), suffix) + seq![13u8]
    } else {
        without_suffix(segment, suffix)
    }
}

/// Every segment with the suffix removed from its content.
pub open spec fn segments_without_suffix(segments: Seq<Seq<u8>>, suffix: Seq<u8>) -> Seq<Seq<u8>> {
    Seq::new(
        segments.len(),
        |k: int| segment_without_suffix(segments[k], suffix, k == segments.len() - 1),
    )
}

/// No segment holds an LF.
pub open spec fn no_lf_inside(segments: Seq<Seq<u8>>) -> bool {
    forall|k: int, t: int|
        0 <= k < segments.len() && 0 <= t < segments[k].len() ==> #[trigger] segments[k][t] != 10u8
}

/// Suffix removal on the line that starts at `i`, whose content is the whole
/// of `seg` (minus a final CR when an LF follows).
proof fn lemma_suffix_first_line(b: Seq<u8>, i: int, seg: Seq<u8>, suffix: Seq<u8>, last: bool)
    requires
        0 <= i < b.len(),
        i + seg.len() <= b.len(),
        b.subrange(i, i + seg.len()) == seg,
        forall|t: int| 0 <= t < seg.len() ==> seg[t] != 10u8,
        last ==> i + seg.len() == b.len(),
        !last ==> i + seg.len() < b.len() && b[i + seg.len()] == 10u8,
    ensures
        line_end(b, i) == i + seg.len(),
        line_stop(b, i) == if last {
            b.len() as int
        } else {
            i + seg.len() + 1
        },
        ({
            let cs = content_stop(b, i);
            let body = if line_ends_with(b, i, suffix) {
                b.subrange(i, cs - suffix.len())
            } else {
                b.subrange(i, cs)
            };
            body + b.subrange(cs, line_stop(b, i)) == segment_without_suffix(seg, suffix, last) + (
            if last {
                Seq::<u8>::empty()
            } else {
                seq![10u8]
            })
        }),
{
    let le = i + seg.len();
    assert forall|k: int| i <= k < le implies b[k] != 10u8 by {
        assert(b[k] == b.subrange(i, le)[k - i]);
    }
    lemma_line_end_at(b, i, le);
    lemma_line_parts(b, i);
    let cs = content_stop(b, i);
    let ls = line_stop(b, i);
    let crlf = !last && seg.len() > 0 && seg.last() == 13u8;
    if !last && seg.len() > 0 {
        assert(b[le - 1] == b.subrange(i, le)[seg.len() - 1]);
    }
    let content = if crlf {
        seg.drop_last()
    } else {
        seg
    };
    assert(cs == i + content.len());
    assert(b.subrange(i, cs) =~= content);
    let n = suffix.len();
    if n <= content.len() {
        assert(b.subrange(cs - n, cs) =~= content.subrange(content.len() - n, content.len() as int));
        assert(b.subrange(i, cs - n) =~= content.subrange(0, content.len() - n));
    }
    if last {
        assert(b.subrange(cs, ls) =~= Seq::<u8>::empty());
    } else if crlf {
        assert(b.subrange(cs, ls) =~= seq![13u8, 10u8]);
    } else {
        assert(b.subrange(cs, ls) =~= seq![10u8]);
    }
    let body = if line_ends_with(b, i, suffix) {
        b.subrange(i, cs - suffix.len())
    } else {
        b.subrange(i, cs)
    };
    assert(body == without_suffix(content, suffix));
    if crlf {
        assert(without_suffix(content, suffix) + seq![13u8, 10u8] =~= without_suffix(content, suffix)
            + seq![13u8] + seq![10u8]);
    } else if last {
        assert(body + Seq::<u8>::empty() =~= body);
    }
}

proof fn lemma_strip_suffix_segments(b: Seq<u8>, i: int, segments: Seq<Seq<u8>>, suffix: Seq<u8>)
    requires
        0 <= i <= b.len(),
        segments.len() >= 1,
        no_lf_inside(segments),
        b.subrange(i, b.len() as int) == joined(segments),
    ensures
        strip_suffix_from(b, i, suffix) == joined(segments_without_suffix(segments, suffix)),
    decreases segments.len(),
{
    let seg = segments[0];
    let out = segments_without_suffix(segments, suffix);
    assert(out[0] == segment_without_suffix(seg, suffix, segments.len() == 1));
    assert forall|t: int| 0 <= t < seg.len() implies seg[t] != 10u8 by {
        assert(segments[0][t] != 10u8);
    }
    if segments.len() == 1 {
        assert(joined(segments) == seg);
        assert(joined(out) == out[0]);
        if i == b.len() {
            assert(seg.len() == 0);
            assert(without_suffix(seg, suffix) =~= Seq::<u8>::empty());
        } else {
            assert(b.subrange(i, i + seg.len()) =~= seg);
            lemma_suffix_first_line(b, i, seg, suffix, true);
            assert(strip_suffix_from(b, b.len() as int, suffix) =~= Seq::<u8>::empty());
            let cs = content_stop(b, i);
            let body = if line_ends_with(b, i, suffix) {
                b.subrange(i, cs - suffix.len())
            } else {
                b.subrange(i, cs)
            };
            assert(strip_suffix_from(b, i, suffix) == body + b.subrange(cs, line_stop(b, i))
                + strip_suffix_from(b, line_stop(b, i), suffix));
            assert(out[0] + Seq::<u8>::empty() =~= out[0]);
        }
    } else {
        let rest = segments.drop_first();
        let whole = b.subrange(i, b.len() as int);
        assert(whole == seg + seq![10u8] + joined(rest));
        let le = i + seg.len();
        assert(b.subrange(i, le) =~= seg) by {
            assert forall|t: int| 0 <= t < seg.len() implies b.subrange(i, le)[t] == seg[t] by {
                assert(whole[t] == seg[t]);
            }
        }
        assert(b[le] == 10u8) by {
            assert(whole[seg.len() as int] == 10u8);
        }
        lemma_suffix_first_line(b, i, seg, suffix, false);
        assert(no_lf_inside(rest)) by {
            assert forall|k: int, t: int| 0 <= k < rest.len() && 0 <= t < rest[k].len() implies #[trigger] rest[k][t]
                != 10u8 by {
                assert(rest[k] == segments[k + 1]);
            }
        }
        assert(b.subrange(le + 1, b.len() as int) =~= joined(rest)) by {
            assert forall|t: int| 0 <= t < joined(rest).len() implies b.subrange(le + 1, b.len() as int)[t]
                == joined(rest)[t] by {
                assert(whole[seg.len() + 1 + t] == joined(rest)[t]);
            }
        }
        lemma_strip_suffix_segments(b, le + 1, rest, suffix);
        assert(out.drop_first() =~= segments_without_suffix(rest, suffix));
        assert(joined(out) == out[0] + seq![10u8] + joined(out.drop_first()));
        let cs = content_stop(b, i);
        let body = if line_ends_with(b, i, suffix) {
            b.subrange(i, cs - suffix.len())
        } else {
            b.subrange(i, cs)
        };
        assert(strip_suffix_from(b, i, suffix) == body + b.subrange(cs, line_stop(b, i))
            + strip_suffix_from(b, le + 1, suffix));
    }
}

/// Suffix removal works line by line: split the text at its LF bytes; each
/// segment loses one copy of the suffix from the end of its content, whether
/// or not a line ending follows it (the last segment included), and the LF
/// and CRLF endings stay. A CR right before an LF is part of the ending,
/// while a CR in the last segment is content.
pub proof fn lemma_strip_suffix_works_per_line(segments: Seq<Seq<u8>>, suffix: Seq<u8>)
    requires
        segments.len() >= 1,
        no_lf_inside(segments),
    ensures
        suffix_stripped(joined(segments), suffix) == joined(
            segments_without_suffix(segments, suffix),
        ),
{
    let b = joined(segments);
    assert(b.subrange(0, b.len() as int) =~= b);
    lemma_strip_suffix_segments(b, 0, segments, suffix);
}

/// Joined segments are empty only when they are one empty segment.
proof fn lemma_joined_empty(segments: Seq<Seq<u8>>)
    requires
        segments.len() >= 1,
        joined(segments).len() == 0,
    ensures
        segments.len() == 1,
        segments[0].len() == 0,
{
    if segments.len() > 1 {
        assert(joined(segments) == segments[0] + seq![10u8] + joined(segments.drop_first()));
    }
}

/// The content of a segment: a final CR belongs to the CRLF ending when an
/// LF follows the segment, and is content in the last segment.
pub open spec fn segment_content(segment: Seq<u8>, last: bool) -> Seq<u8> {
    if !last && segment.len() > 0 && segment.last() == 13u8 {
        segment.drop_last()
    } else {
        segment
    }
}

/// What follows the content of a segment inside it: the CR of a CRLF ending.
pub open spec fn segment_cr(segment: Seq<u8>, last: bool) -> Seq<u8> {
    if !last && segment.len() > 0 && segment.last() == 13u8 {
        seq![13u8]
    } else {
        Seq::empty()
    }
}

/// The first segment of the text that starts at `i` is the first line there.
proof fn lemma_first_segment(b: Seq<u8>, i: int, segments: Seq<Seq<u8>>)
    requires
        0 <= i < b.len(),
        segments.len() >= 1,
        no_lf_inside(segments),
        b.subrange(i, b.len() as int) == joined(segments),
    ensures
        line_end(b, i) == i + segments[0].len(),
        segments.len() == 1 ==> line_end(b, i) == b.len(),
        segments.len() > 1 ==> line_end(b, i) < b.len() && b[line_end(b, i)] == 10u8
            && b.subrange(line_end(b, i) + 1, b.len() as int) == joined(segments.drop_first())
            && no_lf_inside(segments.drop_first()),
        b.subrange(i, line_end(b, i)) == segments[0],
        content_stop(b, i) == i + segment_content(segments[0], segments.len() == 1).len(),
        b.subrange(i, content_stop(b, i)) == segment_content(segments[0], segments.len() == 1),
        line_stop(b, i) == if segments.len() == 1 {
            b.len() as int
        } else {
            line_end(b, i) + 1
        },
{
    let seg = segments[0];
    let whole = b.subrange(i, b.len() as int);
    let le = i + seg.len();
    if segments.len() == 1 {
        assert(whole == seg);
    } else {
        let rest = segments.drop_first();
        assert(whole == seg + seq![10u8] + joined(rest));
        assert(b[le] == 10u8) by {
            assert(whole[seg.len() as int] == 10u8);
        }
        assert(b.subrange(le + 1, b.len() as int) =~= joined(rest)) by {
            assert forall|t: int| 0 <= t < joined(rest).len() implies b.subrange(
                le + 1,
                b.len() as int,
            )[t] == joined(rest)[t] by {
                assert(whole[seg.len() + 1 + t] == joined(rest)[t]);
            }
        }
        assert forall|k: int, t: int| 0 <= k < rest.len() && 0 <= t < rest[k].len() implies #[trigger] rest[k][t]
            != 10u8 by {
            assert(rest[k] == segments[k + 1]);
        }
    }
    assert(b.subrange(i, le) =~= seg) by {
        assert forall|t: int| 0 <= t < seg.len() implies b.subrange(i, le)[t] == seg[t] by {
            assert(whole[t] == seg[t]);
        }
    }
    assert forall|k: int| i <= k < le implies b[k] != 10u8 by {
        assert(b[k] == b.subrange(i, le)[k - i]);
        assert(segments[0][k - i] != 10u8);
    }
    lemma_line_end_at(b, i, le);
    lemma_line_parts(b, i);
    if segments.len() > 1 && seg.len() > 0 {
        assert(b[le - 1] == b.subrange(i, le)[seg.len() - 1]);
    }
    let content = segment_content(seg, segments.len() == 1);
    assert(b.subrange(i, content_stop(b, i)) =~= content);
}

/// Trimming each segment's content, keeping its ending.
pub open spec fn segments_trimmed(segments: Seq<Seq<u8>>) -> Seq<Seq<u8>> {
    Seq::new(
        segments.len(),
        |k: int|
            trimmed(segment_content(segments[k], k == segments.len() - 1)) + segment_cr(
                segments[k],
                k == segments.len() - 1,
            ),
    )
}

proof fn lemma_trim_lines_segments(b: Seq<u8>, i: int, segments: Seq<Seq<u8>>)
    requires
        valid_utf8(b),
        0 <= i <= b.len(),
        i == 0 || b[i - 1] == 10u8,
        segments.len() >= 1,
        no_lf_inside(segments),
        b.subrange(i, b.len() as int) == joined(segments),
    ensures
        trim_lines_from(b, i) == joined(segments_trimmed(segments)),
    decreases segments.len(),
{
    lemma_valid_shaped(b);
    let out = segments_trimmed(segments);
    let seg = segments[0];
    let last = segments.len() == 1;
    assert(out[0] == trimmed(segment_content(seg, last)) + segment_cr(seg, last));
    if i == b.len() {
        assert(b.subrange(i, b.len() as int).len() == 0);
        lemma_joined_empty(segments);
        assert(seg.len() == 0);
        assert(trimmed(seg) =~= Seq::<u8>::empty());
        assert(joined(out) == out[0]);
        return;
    }
    if i > 0 {
        lemma_ascii_boundary(b, i - 1);
    }
    lemma_first_segment(b, i, segments);
    lemma_trimmed_line_is_trimmed(b, i);
    let le = line_end(b, i);
    if last {
        assert(joined(out) == out[0]);
        assert(out[0] =~= trimmed(segment_content(seg, last)));
    } else {
        let rest = segments.drop_first();
        lemma_trim_lines_segments(b, le + 1, rest);
        assert(out.drop_first() =~= segments_trimmed(rest));
        assert(joined(out) == out[0] + seq![10u8] + joined(out.drop_first()));
        assert(line_break(b, le) =~= segment_cr(seg, last) + seq![10u8]) by {
            if seg.len() > 0 {
                assert(b[le - 1] == b.subrange(i, le)[seg.len() - 1]);
            }
        }
    }
}

/// Line trimming works line by line: split the text at its LF bytes; each
/// segment's content is trimmed and its ending is kept, CRLF as CRLF and LF
/// as LF, blank lines and the last segment included.
pub proof fn lemma_trim_lines_per_segment(segments: Seq<Seq<u8>>)
    requires
        segments.len() >= 1,
        no_lf_inside(segments),
        valid_utf8(joined(segments)),
    ensures
        trimmed_lines(joined(segments)) == joined(segments_trimmed(segments)),
{
    let b = joined(segments);
    assert(b.subrange(0, b.len() as int) =~= b);
    lemma_trim_lines_segments(b, 0, segments);
}

/// Every segment without the prefix at its start.
pub open spec fn segments_without_prefix(segments: Seq<Seq<u8>>, prefix: Seq<u8>) -> Seq<Seq<u8>> {
    Seq::new(segments.len(), |k: int| without_prefix(segments[k], prefix))
}

proof fn lemma_strip_prefix_segments(b: Seq<u8>, i: int, segments: Seq<Seq<u8>>, prefix: Seq<u8>)
    requires
        !has_line_break(prefix),
        0 <= i <= b.len(),
        segments.len() >= 1,
        no_lf_inside(segments),
        b.subrange(i, b.len() as int) == joined(segments),
    ensures
        (if i < b.len() {
            strip_prefix_from(b, i, true, prefix)
        } else {
            Seq::<u8>::empty()
        }) == joined(segments_without_prefix(segments, prefix)),
    decreases segments.len(),
{
    let out = segments_without_prefix(segments, prefix);
    let seg = segments[0];
    assert(out[0] == without_prefix(seg, prefix));
    if i == b.len() {
        assert(b.subrange(i, b.len() as int).len() == 0);
        lemma_joined_empty(segments);
        assert(seg.len() == 0);
        assert(without_prefix(seg, prefix) =~= Seq::<u8>::empty()) by {
            if prefix.len() <= seg.len() {
                assert(prefix.len() == 0);
            }
        }
        assert(joined(out) == out[0]);
        return;
    }
    lemma_first_segment(b, i, segments);
    lemma_strip_prefix_line(b, i, prefix);
    let le = line_end(b, i);
    let j = if matches_at(b, i, prefix) {
        i + prefix.len()
    } else {
        i
    };
    assert(b.subrange(j, le) == without_prefix(seg, prefix)) by {
        if matches_at(b, i, prefix) {
            assert(seg.subrange(0, prefix.len() as int) =~= b.subrange(i, i + prefix.len()));
            assert(b.subrange(j, le) =~= seg.subrange(prefix.len() as int, seg.len() as int));
        } else if prefix.len() <= seg.len() && seg.subrange(0, prefix.len() as int) == prefix {
            assert(b.subrange(i, i + prefix.len()) =~= seg.subrange(0, prefix.len() as int));
        }
    }
    if segments.len() == 1 {
        assert(joined(out) == out[0]);
    } else {
        let rest = segments.drop_first();
        lemma_strip_prefix_segments(b, le + 1, rest, prefix);
        assert(out.drop_first() =~= segments_without_prefix(rest, prefix));
        assert(joined(out) == out[0] + seq![10u8] + joined(out.drop_first()));
        if le + 1 == b.len() {
            assert(strip_prefix_from(b, le + 1, true, prefix) =~= Seq::<u8>::empty());
        }
    }
}

/// Prefix removal works segment by segment: split the text at its LF bytes;
/// each segment that starts with the prefix loses one copy of it, the others
/// stay as they are, and every LF stays.
pub proof fn lemma_strip_prefix_per_segment(segments: Seq<Seq<u8>>, prefix: Seq<u8>)
    requires
        segments.len() >= 1,
        no_lf_inside(segments),
        !has_line_break(prefix),
    ensures
        prefix_stripped(joined(segments), prefix) == joined(
            segments_without_prefix(segments, prefix),
        ),
{
    let b = joined(segments);
    assert(b.subrange(0, b.len() as int) =~= b);
    lemma_strip_prefix_segments(b, 0, segments, prefix);
    if b.len() == 0 {
        assert(prefix_stripped(b, prefix) =~= Seq::<u8>::empty());
    }
}

/// The lines of a text split at its LF bytes: each segment's content, with
/// a last segment that is empty giving no line.
pub open spec fn segment_lines(segments: Seq<Seq<u8>>) -> Seq<Seq<u8>> {
    let all = Seq::new(
        segments.len(),
        |k: int| segment_content(segments[k], k == segments.len() - 1),
    );
    if segments.len() > 0 && segments.last().len() == 0 {
        all.drop_last()
    } else {
        all
    }
}

proof fn lemma_lines_segments(b: Seq<u8>, i: int, segments: Seq<Seq<u8>>)
    requires
        0 <= i <= b.len(),
        segments.len() >= 1,
        no_lf_inside(segments),
        b.subrange(i, b.len() as int) == joined(segments),
    ensures
        lines_from(b, i) == segment_lines(segments),
    decreases segments.len(),
{
    let seg = segments[0];
    if i == b.len() {
        assert(b.subrange(i, b.len() as int).len() == 0);
        lemma_joined_empty(segments);
        assert(seg.len() == 0);
        if segments.len() > 1 {
            assert(joined(segments).len() > 0);
        }
        assert(segment_lines(segments) =~= Seq::<Seq<u8>>::empty());
        return;
    }
    lemma_first_segment(b, i, segments);
    let le = line_end(b, i);
    if segments.len() == 1 {
        assert(seg.len() > 0);
        assert(lines_from(b, b.len() as int) =~= Seq::<Seq<u8>>::empty());
        assert(segment_lines(segments) =~= seq![seg]);
    } else {
        let rest = segments.drop_first();
        lemma_lines_segments(b, le + 1, rest);
        assert(segments.last() == rest.last());
        assert(segment_lines(segments) =~= seq![segment_content(seg, false)] + segment_lines(rest));
    }
}

/// Splitting into lines follows the LF bytes: each segment between LFs gives
/// one line, its content without the CR of a CRLF ending; a CR elsewhere is
/// content, blank lines are kept, and a final line ending adds no line.
pub proof fn lemma_lines_per_segment(segments: Seq<Seq<u8>>)
    requires
        segments.len() >= 1,
        no_lf_inside(segments),
    ensures
        lines_of(joined(segments)) == segment_lines(segments),
{
    let b = joined(segments);
    assert(b.subrange(0, b.len() as int) =~= b);
    lemma_lines_segments(b, 0, segments);
}

/// The pieces laid end to end.
pub open spec fn concat(pieces: Seq<Seq<u8>>) -> Seq<u8>
    decreases pieces.len(),
{
    if pieces.len() == 0 {
        Seq::empty()
    } else {
        pieces[0] + concat(pieces.drop_first())
    }
}

/// Each segment with its LF when its content is not empty, and nothing
/// when it is.
pub open spec fn kept_segments(segments: Seq<Seq<u8>>) -> Seq<Seq<u8>> {
    Seq::new(
        segments.len(),
        |k: int|
            if segment_content(segments[k], k == segments.len() - 1).len() > 0 {
                segments[k] + if k == segments.len() - 1 {
                    Seq::<u8>::empty()
                } else {
                    seq![10u8]
                }
            } else {
                Seq::<u8>::empty()
            },
    )
}

proof fn lemma_remove_empty_segments(b: Seq<u8>, i: int, segments: Seq<Seq<u8>>)
    requires
        0 <= i <= b.len(),
        segments.len() >= 1,
        no_lf_inside(segments),
        b.subrange(i, b.len() as int) == joined(segments),
    ensures
        nonempty_lines_from(b, i) == concat(kept_segments(segments)),
    decreases segments.len(),
{
    let out = kept_segments(segments);
    let seg = segments[0];
    let last = segments.len() == 1;
    if i == b.len() {
        assert(b.subrange(i, b.len() as int).len() == 0);
        lemma_joined_empty(segments);
        assert(seg.len() == 0);
        if segments.len() > 1 {
            assert(joined(segments).len() > 0);
        }
        assert(out[0] =~= Seq::<u8>::empty());
        assert(concat(out) == out[0] + concat(out.drop_first()));
        assert(out.drop_first().len() == 0);
        return;
    }
    lemma_first_segment(b, i, segments);
    let le = line_end(b, i);
    let ls = line_stop(b, i);
    assert(concat(out) == out[0] + concat(out.drop_first()));
    if last {
        assert(out.drop_first().len() == 0);
        assert(nonempty_lines_from(b, b.len() as int) =~= Seq::<u8>::empty());
        assert(b.subrange(i, ls) =~= seg);
        assert(out[0] + Seq::<u8>::empty() =~= out[0]);
        if seg.len() > 0 {
            assert(out[0] =~= seg);
        }
    } else {
        let rest = segments.drop_first();
        lemma_remove_empty_segments(b, le + 1, rest);
        assert(out.drop_first() =~= kept_segments(rest));
        assert(b.subrange(i, ls) =~= seg + seq![10u8]) by {
            assert(b.subrange(i, le) == seg);
        }
    }
}

/// Removing empty lines works segment by segment: split the text at its LF
/// bytes; a segment whose content is empty goes with its LF, and every other
/// segment stays byte for byte with its LF or CRLF ending.
pub proof fn lemma_remove_empty_lines_per_segment(segments: Seq<Seq<u8>>)
    requires
        segments.len() >= 1,
        no_lf_inside(segments),
    ensures
        without_empty_lines(joined(segments)) == concat(kept_segments(segments)),
{
    let b = joined(segments);
    assert(b.subrange(0, b.len() as int) =~= b);
    lemma_remove_empty_segments(b, 0, segments);
}

/// Replacement only looks forward: text in front does not change what
/// happens from a position on.
proof fn lemma_replace_shift(p: Seq<u8>, y: Seq<u8>, j: int, f: Seq<u8>, t: Seq<u8>)
    requires
        0 <= j <= y.len(),
    ensures
        replace_from(p + y, p.len() + j, f, t) == replace_from(y, j, f, t),
    decreases y.len() - j,
{
    let b = p + y;
    let i = p.len() + j;
    if f.len() <= y.len() - j {
        assert(b.subrange(i, i + f.len()) =~= y.subrange(j, j + f.len())) by {
            assert forall|k: int| 0 <= k < f.len() implies #[trigger] b.subrange(i, i + f.len())[k]
                == y.subrange(j, j + f.len())[k] by {
                assert(b[i + k] == y[j + k]);
            }
        }
    }
    if f.len() <= y.len() - j {
        assert(matches_at(b, i, f) == matches_at(y, j, f));
    } else {
        assert(!matches_at(b, i, f) && !matches_at(y, j, f));
    }
    if matches_at(y, j, f) && f.len() > 0 {
        lemma_replace_shift(p, y, j + f.len(), f, t);
    } else if j < y.len() {
        assert(b[i] == y[j]);
        if j + width(y[j]) <= y.len() {
            lemma_replace_shift(p, y, j + width(y[j]), f, t);
            assert(b.subrange(i, i + width(b[i])) =~= y.subrange(j, j + width(y[j])));
        }
    }
}

proof fn lemma_replace_walk(b: Seq<u8>, i: int, n: int, f: Seq<u8>, t: Seq<u8>)
    requires
        shaped(b),
        boundary(b, i),
        boundary(b, n),
        i <= n,
        forall|k: int| 0 <= k < n ==> !matches_at(b, k, f),
    ensures
        replace_from(b, i, f, t) == b.subrange(i, n) + replace_from(b, n, f, t),
    decreases n - i,
{
    if i < n {
        lemma_step_within(b, i, n);
        lemma_step(b, i);
        let w = width(b[i]);
        assert(!matches_at(b, i, f));
        lemma_replace_walk(b, i + w, n, f, t);
        assert(Seq::<u8>::empty() + b.subrange(i, i + w) + (b.subrange(i + w, n) + replace_from(
            b,
            n,
            f,
            t,
        )) =~= b.subrange(i, n) + replace_from(b, n, f, t));
    } else {
        assert(b.subrange(i, n) =~= Seq::<u8>::empty());
    }
}

/// Replacement takes the first occurrence: when `from` first occurs right
/// after `p`, the text up to it is kept, that occurrence becomes `to`, and
/// replacement goes on after it, never searching `to` again.
pub proof fn lemma_replace_first_occurrence(p: Seq<u8>, from: Seq<u8>, q: Seq<u8>, to: Seq<u8>)
    requires
        valid_utf8(p + from + q),
        valid_utf8(from),
        from.len() > 0,
        forall|k: int| 0 <= k < p.len() ==> !matches_at(p + from + q, k, from),
    ensures
        replaced(p + from + q, from, to) == p + to + replaced(q, from, to),
{
    let b = p + from + q;
    let n = p.len() as int;
    lemma_valid_shaped(b);
    lemma_valid_shaped(from);
    assert(boundary(from, 0));
    assert(b[n] == from[0]);
    assert(boundary(b, n));
    lemma_replace_walk(b, 0, n, from, to);
    assert(b.subrange(n, n + from.len()) =~= from);
    assert(matches_at(b, n, from));
    assert(b =~= (p + from) + q);
    lemma_replace_shift(p + from, q, 0, from, to);
    assert(b.subrange(0, n) =~= p);
}

/// An empty search text puts `to` before every character: `to`, then the
/// first character, then the rest replaced the same way.
pub proof fn lemma_replace_empty_before_each_character(c: Seq<u8>, y: Seq<u8>, to: Seq<u8>)
    requires
        valid_utf8(c + y),
        c.len() > 0,
        !is_continuation_byte(c[0]),
        forall|k: int| 0 < k < c.len() ==> is_continuation_byte(#[trigger] c[k]),
        y.len() > 0 ==> !is_continuation_byte(y[0]),
    ensures
        replaced(c + y, Seq::empty(), to) == to + c + replaced(y, Seq::empty(), to),
{
    let b = c + y;
    let e = Seq::<u8>::empty();
    lemma_valid_shaped(b);
    lemma_step(b, 0);
    let w = width(b[0]);
    assert(b[0] == c[0]);
    if w < c.len() {
        assert(b[w] == c[w]);
    }
    if w > c.len() {
        assert(b[c.len() as int] == y[0]);
    }
    assert(w == c.len());
    assert(matches_at(b, 0, e)) by {
        assert(b.subrange(0, 0) =~= e);
    }
    lemma_replace_shift(c, y, 0, e, to);
    assert(b.subrange(0, w) =~= c);
}

/// Replacing anything in an empty text gives `to` when searching for the
/// empty text, and nothing otherwise.
pub proof fn lemma_replace_in_empty_text(from: Seq<u8>, to: Seq<u8>)
    ensures
        replaced(Seq::empty(), from, to) == if from.len() == 0 {
            to
        } else {
            Seq::<u8>::empty()
        },
{
    let e = Seq::<u8>::empty();
    if from.len() == 0 {
        assert(matches_at(e, 0, from)) by {
            assert(e.subrange(0, 0) =~= from);
        }
    }
}

/// `s` holds the byte `v`.
pub open spec fn has_byte(s: Seq<u8>, v: u8) -> bool {
    exists|t: int| 0 <= t < s.len() && s[t] == v
}

/// What a whitespace run becomes: the replacement text, or with none, LF
/// when the run holds a CR or an LF, otherwise a tab when it holds a tab,
/// otherwise one space.
pub open spec fn run_output(run: Seq<u8>, replacement: Option<Seq<u8>>) -> Seq<u8> {
    match replacement {
        Some(t) => t,
        None => if has_byte(run, 10u8) || has_byte(run, 13u8) {
            seq![10u8]
        } else if has_byte(run, 9u8) {
            seq![9u8]
        } else {
            seq![32u8]
        },
    }
}

/// Collapsing only looks forward: text in front does not change what
/// happens from a character boundary on.
proof fn lemma_collapse_shift(p: Seq<u8>, y: Seq<u8>, j: int, r: Option<Seq<u8>>)
    requires
        shaped(y),
        boundary(y, j),
    ensures
        collapse_from(p + y, p.len() + j, r) == collapse_from(y, j, r),
        skip_ws(p + y, p.len() + j, (p + y).len() as int) == p.len() + skip_ws(y, j, y.len() as int),
        run_rank(p + y, p.len() + j) == run_rank(y, j),
    decreases y.len() - j,
{
    let b = p + y;
    let i = p.len() + j;
    if j < y.len() {
        lemma_step(y, j);
        lemma_ws_width(y, j);
        let w = width(y[j]);
        assert forall|k: int| j <= k < j + w implies b[i + k - j] == y[k] by {}
        lemma_ws_width_local(y, j, b, i);
        lemma_collapse_shift(p, y, j + w, r);
        if ws_width(y, j) > 0 {
            lemma_skip_ws(y, j, y.len() as int);
            lemma_skip_ws_bounds(y, j, y.len() as int);
            let e = skip_ws(y, j, y.len() as int);
            lemma_collapse_shift(p, y, e, r);
        } else {
            assert(b.subrange(i, i + w) =~= y.subrange(j, j + w));
        }
    }
}

/// A run of whitespace characters up to a character that is not
/// whitespace, or up to the end: skipping it reaches its end, and its
/// strongest whitespace follows the bytes it holds.
proof fn lemma_space_run(b: Seq<u8>, k: int, n: int)
    requires
        shaped(b),
        boundary(b, k),
        boundary(b, n),
        k <= n,
        forall|x: int| #![trigger boundary(b, x)] boundary(b, x) && k <= x < n ==> ws_width(b, x) > 0,
        n == b.len() || ws_width(b, n) == 0,
    ensures
        skip_ws(b, k, b.len() as int) == n,
        run_rank(b, k) == if has_byte(b.subrange(k, n), 10u8) || has_byte(b.subrange(k, n), 13u8) {
            2int
        } else if has_byte(b.subrange(k, n), 9u8) {
            1int
        } else {
            0int
        },
    decreases n - k,
{
    let s = b.subrange(k, n);
    if k < n {
        lemma_step_within(b, k, n);
        lemma_step(b, k);
        lemma_ws_width(b, k);
        let w = width(b[k]);
        lemma_space_run(b, k + w, n);
        let s2 = b.subrange(k + w, n);
        assert forall|v: u8| v < 128 implies has_byte(s, v) == (b[k] == v || has_byte(s2, v)) by {
            if has_byte(s, v) {
                let t = choose|t: int| 0 <= t < s.len() && s[t] == v;
                if t >= w {
                    assert(s2[t - w] == v);
                } else if t > 0 {
                    assert(is_continuation_byte(b[k + t]));
                } else {
                }
            }
            if b[k] == v {
                assert(s[0] == v);
            }
            if has_byte(s2, v) {
                let t = choose|t: int| 0 <= t < s2.len() && s2[t] == v;
                assert(s[t + w] == v);
            }
        }
        if w > 1 {
            assert(b[k] >= 128);
        }
    } else {
        assert(!has_byte(s, 10u8) && !has_byte(s, 13u8) && !has_byte(s, 9u8));
        if n < b.len() {
            assert(run_rank(b, n) == 0);
        }
    }
}

/// Collapsing handles a leading whitespace run on its own: the run becomes
/// its replacement, or with none LF, tab or space by the strongest
/// whitespace in it, and the rest is collapsed after it.
pub proof fn lemma_collapse_leading_run(x: Seq<u8>, y: Seq<u8>, r: Option<Seq<u8>>)
    requires
        valid_utf8(x + y),
        x.len() > 0,
        !is_continuation_byte(x[0]),
        forall|k: int| #![trigger boundary(x + y, k)]
            boundary(x + y, k) && 0 <= k < x.len() ==> ws_width(x + y, k) > 0,
        y.len() > 0 ==> !is_continuation_byte(y[0]) && ws_width(y, 0) == 0,
    ensures
        collapsed(x + y, r) == run_output(x, r) + collapsed(y, r),
{
    let b = x + y;
    let n = x.len() as int;
    lemma_valid_shaped(b);
    lemma_valid_slice(b, n, b.len() as int);
    assert(b.subrange(n, b.len() as int) =~= y);
    lemma_valid_shaped(y);
    assert(b.subrange(0, n) =~= x);
    if y.len() > 0 {
        assert(b[n] == y[0]);
        lemma_step(y, 0);
        assert forall|k: int| 0 <= k < width(y[0]) implies b[n + k - 0] == y[k] by {}
        lemma_ws_width_local(y, 0, b, n);
    }
    lemma_space_run(b, 0, n);
    lemma_step(b, 0);
    lemma_ws_width(b, 0);
    lemma_collapse_shift(x, y, 0, r);
    lemma_run_rank_bounds(b, 0);
}

/// Collapsing keeps a character that is not whitespace and goes on after it.
pub proof fn lemma_collapse_keeps_other_character(c: Seq<u8>, y: Seq<u8>, r: Option<Seq<u8>>)
    requires
        valid_utf8(c + y),
        c.len() > 0,
        !is_continuation_byte(c[0]),
        forall|k: int| 0 < k < c.len() ==> is_continuation_byte(#[trigger] c[k]),
        ws_width(c + y, 0) == 0,
        y.len() > 0 ==> !is_continuation_byte(y[0]),
    ensures
        collapsed(c + y, r) == c + collapsed(y, r),
{
    let b = c + y;
    lemma_valid_shaped(b);
    lemma_step(b, 0);
    let w = width(b[0]);
    assert(b[0] == c[0]);
    if w < c.len() {
        assert(b[w] == c[w]);
    }
    if w > c.len() {
        assert(b[c.len() as int] == y[0]);
    }
    assert(w == c.len());
    lemma_valid_slice(b, w, b.len() as int);
    assert(b.subrange(w, b.len() as int) =~= y);
    lemma_valid_shaped(y);
    lemma_collapse_shift(c, y, 0, r);
    assert(b.subrange(0, w) =~= c);
}

/// Collapsing an empty text gives an empty text.
pub proof fn lemma_collapse_empty_text(r: Option<Seq<u8>>)
    ensures
        collapsed(Seq::empty(), r) == Seq::<u8>::empty(),
{
}

} // verus!
