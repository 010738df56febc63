//! Byte-level view of UTF-8 text: character widths, character boundaries and
//! the Unicode whitespace set.
use vstd::prelude::*;
use vstd::utf8::*;

verus! {

/// Width in bytes of the character whose leading byte is `first`.
pub open spec fn width(first: u8) -> int {
    if first < 128 {
        1
    } else if first < 224 {
        2
    } else if first < 240 {
        3
    } else {
        4
    }
}

/// `i` is a character boundary of `b`: the end, or a byte that is not a
/// continuation byte.
pub open spec fn boundary(b: Seq<u8>, i: int) -> bool {
    0 <= i <= b.len() && (i == b.len() || !is_continuation_byte(b[i]))
}

/// The character that starts at boundary `i` lies inside `b`, and the next
/// character starts right after it.
pub open spec fn char_complete(b: Seq<u8>, i: int) -> bool {
    &&& i + width(b[i]) <= b.len()
    &&& boundary(b, i + width(b[i]))
    &&& forall|t: int| i < t < i + width(b[i]) ==> is_continuation_byte(#[trigger] b[t])
}

/// The shape of UTF-8 that the scanners rely on: the text starts at a
/// boundary, and every character is complete and followed by a boundary.
pub open spec fn shaped(b: Seq<u8>) -> bool {
    &&& boundary(b, 0)
    &&& forall|i: int| 0 <= i < b.len() && boundary(b, i) ==> #[trigger] char_complete(b, i)
}

/// The White_Space scalars of Unicode (those accepted by `char::is_whitespace`).
pub open spec fn is_space_scalar(v: u32) -> bool {
    ||| 0x09 <= v <= 0x0d
    ||| v == 0x20
    ||| v == 0x85
    ||| v == 0xa0
    ||| v == 0x1680
    ||| 0x2000 <= v <= 0x200a
    ||| v == 0x2028
    ||| v == 0x2029
    ||| v == 0x202f
    ||| v == 0x205f
    ||| v == 0x3000
}

/// Width of the whitespace character starting at byte `i`, or 0 when the
/// character there is not whitespace. No whitespace scalar needs four bytes.
pub open spec fn ws_width(b: Seq<u8>, i: int) -> int {
    let first = b[i];
    if first < 128 {
        if is_space_scalar(codepoint_width_1(first)) {
            1
        } else {
            0
        }
    } else if first < 224 {
        if is_space_scalar(codepoint_width_2(first, b[i + 1])) {
            2
        } else {
            0
        }
    } else if first < 240 {
        if is_space_scalar(codepoint_width_3(first, b[i + 1], b[i + 2])) {
            3
        } else {
            0
        }
    } else {
        0
    }
}

/// A whitespace character is a whole character of at most three bytes.
pub proof fn lemma_ws_width(b: Seq<u8>, i: int)
    ensures
        ws_width(b, i) == 0 || ws_width(b, i) == width(b[i]),
        0 <= ws_width(b, i) <= 3,
{
}

/// Every valid UTF-8 text is shaped.
pub proof fn lemma_valid_shaped(b: Seq<u8>)
    requires
        valid_utf8(b),
    ensures
        shaped(b),
{
    if b.len() > 0 {
        assert(valid_first_scalar(b));
    }
    assert forall|i: int| 0 <= i < b.len() && boundary(b, i) implies #[trigger] char_complete(b, i) by {
        is_char_boundary_iff_not_is_continuation_byte(b, i);
        valid_utf8_split(b, i);
        let s = b.subrange(i, b.len() as int);
        assert(valid_first_scalar(s));
        assert(s[0] == b[i]);
        let w = length_of_first_scalar(s);
        assert(w == width(b[i]));
        assert forall|t: int| i < t < i + w implies is_continuation_byte(#[trigger] b[t]) by {
            assert(b[t] == s[t - i]);
        }
        let rest = pop_first_scalar(s);
        assert(valid_utf8(rest));
        if rest.len() > 0 {
            assert(valid_first_scalar(rest));
            assert(rest[0] == b[i + w]);
        }
    }
}

/// An ASCII byte decodes to itself.
pub proof fn lemma_ascii_scalar(x: u8)
    requires
        x < 128,
    ensures
        codepoint_width_1(x) == x as u32,
{
    assert((x & 0x7f) as u32 == x as u32) by (bit_vector)
        requires
            x < 128,
    ;
}

/// Bytes below 128 always form valid UTF-8.
pub proof fn lemma_valid_ascii(s: Seq<u8>)
    requires
        forall|k: int| 0 <= k < s.len() ==> s[k] < 128,
    ensures
        valid_utf8(s),
    decreases s.len(),
{
    if s.len() > 0 {
        let rest = s.subrange(1, s.len() as int);
        assert forall|k: int| 0 <= k < rest.len() implies rest[k] < 128 by {
            assert(rest[k] == s[k + 1]);
        }
        lemma_valid_ascii(rest);
        assert(s[0] < 128);
        assert(pop_first_scalar(s) =~= rest);
    }
}

/// The text between two character boundaries of valid UTF-8 is valid UTF-8.
pub proof fn lemma_valid_slice(b: Seq<u8>, i: int, j: int)
    requires
        valid_utf8(b),
        boundary(b, i),
        boundary(b, j),
        i <= j,
    ensures
        valid_utf8(b.subrange(i, j)),
{
    is_char_boundary_start_end_of_seq(b);
    if j < b.len() {
        is_char_boundary_iff_not_is_continuation_byte(b, j);
    }
    valid_utf8_split(b, j);
    let p = b.subrange(0, j);
    is_char_boundary_start_end_of_seq(p);
    if i < j {
        is_char_boundary_iff_not_is_continuation_byte(p, i);
        assert(p[i] == b[i]);
    }
    valid_utf8_split(p, i);
    assert(p.subrange(i, p.len() as int) =~= b.subrange(i, j));
}

/// Whitespace detection reads only the bytes of one character.
pub proof fn lemma_ws_width_local(b: Seq<u8>, t: int, o: Seq<u8>, y: int)
    requires
        0 <= t,
        0 <= y,
        t + width(b[t]) <= b.len(),
        y + width(b[t]) <= o.len(),
        forall|k: int| t <= k < t + width(b[t]) ==> o[y + k - t] == b[k],
    ensures
        ws_width(o, y) == ws_width(b, t),
        o[y] == b[t],
        width(o[y]) == width(b[t]),
{
    assert(o[y + t - t] == b[t]);
    if b[t] >= 128 {
        assert(o[y + (t + 1) - t] == b[t + 1]);
    }
    if b[t] >= 224 {
        assert(o[y + (t + 2) - t] == b[t + 2]);
    }
}

/// A byte below 128 is a whole character, so the next byte is a boundary.
pub proof fn lemma_ascii_boundary(b: Seq<u8>, i: int)
    requires
        shaped(b),
        boundary(b, i),
        i < b.len(),
        b[i] < 128,
    ensures
        boundary(b, i + 1),
{
    assert(char_complete(b, i));
}

/// Stepping over the character at a boundary reaches the next boundary.
pub proof fn lemma_step(b: Seq<u8>, i: int)
    requires
        shaped(b),
        boundary(b, i),
        i < b.len(),
    ensures
        char_complete(b, i),
        i + width(b[i]) <= b.len(),
        boundary(b, i + width(b[i])),
        1 <= width(b[i]) <= 4,
{
    assert(char_complete(b, i));
}

/// A character that starts before a later boundary ends at or before it.
pub proof fn lemma_step_within(b: Seq<u8>, i: int, limit: int)
    requires
        shaped(b),
        boundary(b, i),
        boundary(b, limit),
        i < limit,
    ensures
        i + width(b[i]) <= limit,
{
    assert(char_complete(b, i));
    if i + width(b[i]) > limit {
        assert(is_continuation_byte(b[limit]));
    }
}

/// Byte width of the character whose leading byte is `first`.
pub fn char_len(first: u8) -> (r: usize)
    ensures
        r == width(first),
{
    if first < 128 {
        1
    } else if first < 224 {
        2
    } else if first < 240 {
        3
    } else {
        4
    }
}

/// Width of the whitespace character at byte `i`, or 0 when the character is
/// not whitespace.
pub fn whitespace_len(bytes: &[u8], i: usize) -> (r: usize)
    requires
        i < bytes@.len(),
        i + width(bytes@[i as int]) <= bytes@.len(),
    ensures
        r == ws_width(bytes@, i as int),
{
    let first = bytes[i];
    let scalar: u32;
    let len: usize;
    if first < 128 {
        scalar = (first & 0x7f) as u32;
        len = 1;
    } else if first < 224 {
        scalar = ((first & 0x1f) as u32) << 6 | (bytes[i + 1] & 0x3f) as u32;
        len = 2;
    } else if first < 240 {
        scalar = ((first & 0x0f) as u32) << 12 | ((bytes[i + 1] & 0x3f) as u32) << 6 | (bytes[i
            + 2] & 0x3f) as u32;
        len = 3;
    } else {
        return 0;
    }
    if (0x09 <= scalar && scalar <= 0x0d) || scalar == 0x20 || scalar == 0x85 || scalar == 0xa0
        || scalar == 0x1680 || (0x2000 <= scalar && scalar <= 0x200a) || scalar == 0x2028
        || scalar == 0x2029 || scalar == 0x202f || scalar == 0x205f || scalar == 0x3000 {
        len
    } else {
        0
    }
}

} // verus!
