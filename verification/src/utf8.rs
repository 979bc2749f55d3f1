//! Byte strings that are mostly UTF-8, taken apart from their end.
use crate::ascii::{same_bytes, same_text};
use vstd::prelude::*;
use vstd::slice::slice_subrange;
use vstd::utf8::*;

verus! {

/// The number of bytes of the character that a byte begins, or zero for a byte that begins none.
pub open spec fn char_width(b: u8) -> nat {
    if b < 0x80 {
        1
    } else if 0xC2 <= b < 0xE0 {
        2
    } else if 0xE0 <= b < 0xF0 {
        3
    } else if 0xF0 <= b < 0xF5 {
        4
    } else {
        0
    }
}

/// The number of bytes of the character that `first_byte` begins, or zero if it begins none.
pub fn utf8_char_width(first_byte: u8) -> (width: usize)
    ensures
        width == char_width(first_byte),
{
    if first_byte < 0x80 {
        1
    } else if first_byte < 0xC2 {
        0
    } else if first_byte < 0xE0 {
        2
    } else if first_byte < 0xF0 {
        3
    } else if first_byte < 0xF5 {
        4
    } else {
        0
    }
}

/// `str::from_utf8`: a slice of bytes as text, which succeeds exactly if the bytes are valid UTF-8
/// and then hands out the text that they encode.
#[verifier::external_body]
pub(crate) fn from_utf8(bytes: &[u8]) -> (r: Option<&str>)
    ensures
        r is Some <==> valid_utf8(bytes@),
        r matches Some(s) ==> s@ == decode_utf8(bytes@),
{
    std::str::from_utf8(bytes).ok()
}

/// The chunks that `<[u8]>::utf8_chunks` yields, each as its valid text and the invalid bytes
/// behind it.
pub uninterp spec fn utf8_chunks_of(bytes: Seq<u8>) -> Seq<(Seq<char>, Seq<u8>)>;

/// The bytes that a list of chunks was split from.
pub open spec fn joined(chunks: Seq<(Seq<char>, Seq<u8>)>) -> Seq<u8>
    decreases chunks.len(),
{
    if chunks.len() == 0 {
        seq![]
    } else {
        encode_utf8(chunks[0].0) + chunks[0].1 + joined(chunks.drop_first())
    }
}

/// The chunks are the same but for the case of ASCII letters in their text.
pub open spec fn same_chunks(a: Seq<(Seq<char>, Seq<u8>)>, b: Seq<(Seq<char>, Seq<u8>)>) -> bool {
    &&& a.len() == b.len()
    &&& forall|i: int| 0 <= i < a.len() ==> same_text((#[trigger] a[i]).0, b[i].0) && a[i].1 == b[i].1
}

/// `<[u8]>::utf8_chunks`: splits a slice of bytes into pieces of valid text, each followed by the
/// invalid bytes that end it. The pieces and the invalid bytes are the slice in order, only the last
/// piece can have no invalid bytes behind it, and in a slice that is valid UTF-8 none are invalid. An
/// ASCII byte is text, whatever stands around it, so that the case of ASCII letters makes no difference
/// but in the text. Which bytes count as one invalid sequence is left to the name of the result.
#[verifier::external_body]
pub(crate) fn utf8_chunks<'t>(bytes: &'t [u8]) -> (r: Vec<(&'t str, &'t [u8])>)
    ensures
        chunk_views(r@) == utf8_chunks_of(bytes@),
        joined(chunk_views(r@)) == bytes@,
        forall|i: int| 0 <= i < r@.len() - 1 ==> #[trigger] r@[i].1@.len() > 0,
        valid_utf8(bytes@) ==> forall|i: int|
            0 <= i < r@.len() ==> #[trigger] r@[i].1@.len() == 0,
        forall|b: Seq<u8>|
            same_bytes(b, bytes@) ==> same_chunks(#[trigger] utf8_chunks_of(b), chunk_views(r@)),
{
    bytes.utf8_chunks().map(|c| (c.valid(), c.invalid())).collect()
}

/// The least index from `from` on at which a valid UTF-8 suffix of `bytes` starts.
pub open spec fn valid_start_from(bytes: Seq<u8>, from: int) -> int
    decreases bytes.len() - from,
{
    if from >= bytes.len() || valid_utf8(bytes.skip(from)) {
        from
    } else {
        valid_start_from(bytes, from + 1)
    }
}

/// Where the longest suffix of `bytes` that is valid UTF-8 starts.
pub open spec fn valid_start(bytes: Seq<u8>) -> int {
    valid_start_from(bytes, 0)
}

/// Where the sequence that ends `bytes` starts: at the nearest of the last four bytes that begins
/// a character long enough to reach the end, and at the last byte if there is none.
pub open spec fn unit_start(bytes: Seq<u8>) -> int {
    let n = bytes.len() as int;
    if char_width(bytes[n - 1]) > 0 {
        n - 1
    } else if n >= 2 && char_width(bytes[n - 2]) > 1 {
        n - 2
    } else if n >= 3 && char_width(bytes[n - 3]) > 2 {
        n - 3
    } else if n >= 4 && char_width(bytes[n - 4]) > 3 {
        n - 4
    } else {
        n - 1
    }
}

/// Where the last chunk of `bytes` starts: its longest valid suffix, with the broken sequence
/// before that.
pub open spec fn chunk_start(bytes: Seq<u8>) -> int {
    let valid_at = valid_start(bytes);
    if valid_at == 0 {
        0
    } else {
        unit_start(bytes.take(valid_at))
    }
}

/// The chunks of `bytes` from the last to the first. Each holds the longest valid text that ends
/// where the chunk ends, and the broken sequence in front of that text.
pub open spec fn rev_chunks(bytes: Seq<u8>) -> Seq<(Seq<char>, Seq<u8>)>
    decreases bytes.len(),
{
    if bytes.len() == 0 {
        seq![]
    } else {
        let valid_at = valid_start(bytes);
        let start = chunk_start(bytes);
        proof {
            lemma_chunk_start(bytes);
        }
        seq![(decode_utf8(bytes.skip(valid_at)), bytes.subrange(start, valid_at))]
            + rev_chunks(bytes.take(start))
    }
}

pub proof fn lemma_valid_start_from(bytes: Seq<u8>, from: int)
    requires
        0 <= from <= bytes.len(),
    ensures
        from <= valid_start_from(bytes, from) <= bytes.len(),
        valid_utf8(bytes.skip(valid_start_from(bytes, from))),
        forall|j: int|
            from <= j < valid_start_from(bytes, from) ==> !valid_utf8(#[trigger] bytes.skip(j)),
    decreases bytes.len() - from,
{
    if from < bytes.len() && !valid_utf8(bytes.skip(from)) {
        lemma_valid_start_from(bytes, from + 1);
    }
}

proof fn lemma_valid_start_is(bytes: Seq<u8>, at: int)
    requires
        0 <= at <= bytes.len(),
        valid_utf8(bytes.skip(at)),
        forall|j: int| 0 <= j < at ==> !valid_utf8(#[trigger] bytes.skip(j)),
    ensures
        valid_start(bytes) == at,
{
    lemma_valid_start_from(bytes, 0);
    if valid_start(bytes) < at {
        assert(!valid_utf8(bytes.skip(valid_start(bytes))));
    }
}

/// A chunk of a nonempty byte string is never empty.
pub proof fn lemma_chunk_start(bytes: Seq<u8>)
    requires
        bytes.len() > 0,
    ensures
        0 <= chunk_start(bytes) <= valid_start(bytes) <= bytes.len(),
        chunk_start(bytes) < bytes.len(),
        valid_utf8(bytes.skip(valid_start(bytes))),
{
    lemma_valid_start_from(bytes, 0);
}

/// The bytes of a character that are no continuation bytes have the widths in the table.
proof fn lemma_scalar_width(s: Seq<u8>)
    requires
        valid_first_scalar(s),
    ensures
        char_width(s[0]) == length_of_first_scalar(s),
{
    let a = s[0];
    if is_leading_byte_width_2(a) {
        let b = s[1];
        assert(0xc0 <= a <= 0xc1 ==> ((((a & 0x1F) as u32) << 6) | ((b & 0x3f) as u32)) < 0x80)
            by (bit_vector);
    } else if is_leading_byte_width_4(a) {
        let b = s[1];
        let c = s[2];
        let d = s[3];
        assert(0xf5 <= a <= 0xf7 ==> ((((a & 0x07) as u32) << 18) | (((b & 0x3f) as u32) << 12) | (((c
            & 0x3f) as u32) << 6) | ((d & 0x3f) as u32)) > 0x10ffff) by (bit_vector);
    }
}

/// A valid text, from its last byte that is no continuation byte on, is one character.
proof fn lemma_last_char(s: Seq<u8>)
    requires
        valid_utf8(s),
        s.len() > 0,
    ensures
        0 <= unit_start(s) < s.len(),
        valid_utf8(s.skip(unit_start(s))),
{
    let n = s.len() as int;
    assert(!is_continuation_byte(s[0]));
    let q = last_lead(s, n - 1);
    lemma_last_lead(s, n - 1);
    is_char_boundary_iff_not_is_continuation_byte(s, q);
    valid_utf8_split(s, q);
    let piece = s.skip(q);
    assert(piece == s.subrange(q, n));
    let rest = pop_first_scalar(piece);
    let len = length_of_first_scalar(piece);
    assert(valid_first_scalar(piece));
    assert(valid_utf8(rest));
    if rest.len() > 0 {
        assert(rest[0] == s[q + len]);
        assert(valid_first_scalar(rest));
        assert(is_continuation_byte(s[q + len]));
    }
    assert(len == n - q);
    lemma_scalar_width(piece);
    assert(piece[0] == s[q]);
    assert(forall|i: int| q < i < n ==> char_width(#[trigger] s[i]) == 0);
    assert(unit_start(s) == q);
}

/// The last index up to `i` of a byte that is no continuation byte.
spec fn last_lead(s: Seq<u8>, i: int) -> int
    decreases i,
{
    if i <= 0 || !is_continuation_byte(s[i]) {
        i
    } else {
        last_lead(s, i - 1)
    }
}

proof fn lemma_last_lead(s: Seq<u8>, i: int)
    requires
        0 <= i < s.len(),
        !is_continuation_byte(s[0]),
    ensures
        0 <= last_lead(s, i) <= i,
        !is_continuation_byte(s[last_lead(s, i)]),
        forall|j: int| last_lead(s, i) < j <= i ==> is_continuation_byte(#[trigger] s[j]),
    decreases i,
{
    if i > 0 && is_continuation_byte(s[i]) {
        lemma_last_lead(s, i - 1);
    }
}

/// `unit_start` looks at no more than the last four bytes.
proof fn lemma_unit_start_skip(s: Seq<u8>, j: int)
    requires
        0 <= j < s.len(),
        valid_utf8(s.skip(j)),
    ensures
        unit_start(s) == j + unit_start(s.skip(j)),
        valid_utf8(s.skip(unit_start(s))),
        unit_start(s) >= j,
{
    let t = s.skip(j);
    lemma_last_char(t);
    let n = s.len() as int;
    assert forall|k: int| 1 <= k <= t.len() implies #[trigger] t[t.len() - k] == s[n - k] by {}
    assert(t.skip(unit_start(t)) == s.skip(j + unit_start(t)));
    let u = unit_start(t);
    assert(valid_utf8(t.skip(u)) && t.skip(u).len() > 0);
    assert(char_width(t[u]) > 0) by {
        assert(valid_first_scalar(t.skip(u)));
        lemma_scalar_width(t.skip(u));
    }
}

/// Whether the sequence that ends `bytes` is a valid character decides where the longest valid
/// suffix starts: in front of that character and whatever valid text comes before it, or at the
/// very end.
proof fn lemma_valid_start_step(bytes: Seq<u8>)
    requires
        bytes.len() > 0,
    ensures
        0 <= unit_start(bytes) < bytes.len(),
        valid_utf8(bytes.skip(unit_start(bytes))) ==> valid_start(bytes) == valid_start(
            bytes.take(unit_start(bytes)),
        ),
        !valid_utf8(bytes.skip(unit_start(bytes))) ==> valid_start(bytes) == bytes.len(),
{
    let n = bytes.len() as int;
    let i = unit_start(bytes);
    let unit = bytes.skip(i);
    let head = bytes.take(i);
    if valid_utf8(unit) {
        lemma_valid_start_from(head, 0);
        let v = valid_start(head);
        assert(bytes.skip(v) == head.skip(v) + unit);
        valid_utf8_concat(head.skip(v), unit);
        assert(valid_first_scalar(unit));
        assert(!is_continuation_byte(unit[0]));
        assert forall|j: int| 0 <= j < v implies !valid_utf8(#[trigger] bytes.skip(j)) by {
            if valid_utf8(bytes.skip(j)) {
                let s = bytes.skip(j);
                assert(s[i - j] == unit[0]);
                is_char_boundary_iff_not_is_continuation_byte(s, i - j);
                valid_utf8_split(s, i - j);
                assert(s.subrange(0, i - j) == head.skip(j));
                assert(!valid_utf8(head.skip(j)));
            }
        }
        lemma_valid_start_is(bytes, v);
    } else {
        assert forall|j: int| 0 <= j < n implies !valid_utf8(#[trigger] bytes.skip(j)) by {
            if valid_utf8(bytes.skip(j)) {
                lemma_unit_start_skip(bytes, j);
            }
        }
        assert(bytes.skip(n) == Seq::<u8>::empty());
        lemma_valid_start_is(bytes, n);
    }
}

/// The bounds of the last chunk of `text`: where its broken sequence and where its valid text
/// start.
fn last_chunk(text: &[u8]) -> (r: (usize, usize))
    requires
        text@.len() > 0,
    ensures
        r.0 == chunk_start(text@),
        r.1 == valid_start(text@),
        r.0 <= r.1 <= text@.len(),
        r.0 < text@.len(),
        valid_utf8(text@.skip(r.1 as int)),
{
    let mut end: usize = text.len();
    assert(text@.take(end as int) == text@);
    while end > 0
        invariant
            end <= text@.len(),
            valid_start(text@) == valid_start(text@.take(end as int)),
            text@.len() > 0,
        decreases end,
    {
        let ghost head = text@.take(end as int);
        let start: usize = if utf8_char_width(text[end - 1]) > 0 {
            end - 1
        } else if end >= 2 && utf8_char_width(text[end - 2]) > 1 {
            end - 2
        } else if end >= 3 && utf8_char_width(text[end - 3]) > 2 {
            end - 3
        } else if end >= 4 && utf8_char_width(text[end - 4]) > 3 {
            end - 4
        } else {
            end - 1
        };
        proof {
            assert(start == unit_start(head));
            lemma_valid_start_step(head);
            assert(text@.subrange(start as int, end as int) == head.skip(start as int));
            assert(head.take(start as int) == text@.take(start as int));
        }
        let unit = slice_subrange(text, start, end);
        if from_utf8(unit).is_none() {
            proof {
                lemma_chunk_start(text@);
            }
            return (start, end);
        }
        end = start;
    }
    proof {
        lemma_chunk_start(text@);
        assert(text@.take(0).len() == 0);
        lemma_valid_start_from(text@.take(0), 0);
    }
    (0, 0)
}

/// Splits `text` into chunks of valid text, each with the broken sequence in front of it, from the
/// end of `text` to its start.
pub fn rev_utf8_chunks<'t>(text: &'t [u8]) -> (chunks: Vec<(&'t str, &'t [u8])>)
    ensures
        chunk_views(chunks@) == rev_chunks(text@),
{
    let mut chunks: Vec<(&'t str, &'t [u8])> = Vec::new();
    let mut end: usize = text.len();
    assert(text@.take(end as int) == text@);
    while end > 0
        invariant
            end <= text@.len(),
            rev_chunks(text@) == chunk_views(chunks@) + rev_chunks(text@.take(end as int)),
        decreases end,
    {
        let ghost before = chunks@;
        let head = slice_subrange(text, 0, end);
        assert(head@ == text@.take(end as int));
        let (start, valid_at) = last_chunk(head);
        let valid = slice_subrange(head, valid_at, end);
        assert(valid@ == head@.skip(valid_at as int));
        let text_of = from_utf8(valid).unwrap();
        let broken = slice_subrange(head, start, valid_at);
        chunks.push((text_of, broken));
        assert(chunk_views(chunks@) =~= chunk_views(before).push((text_of@, broken@)));
        assert(head@.take(start as int) == text@.take(start as int));
        end = start;
    }
    chunks
}

/// The last chunk's valid text, or the empty text if there are no chunks.
pub open spec fn trailing_text(bytes: Seq<u8>) -> Seq<char> {
    decode_utf8(bytes.skip(valid_start(bytes)))
}

/// The longest valid text that `text` ends with.
pub fn trailing_str<'t>(text: &'t [u8]) -> (r: &'t str)
    ensures
        r@ == trailing_text(text@),
{
    if text.len() == 0 {
        proof {
            lemma_valid_start_from(text@, 0);
        }
        return from_utf8(slice_subrange(text, 0, 0)).unwrap();
    }
    let (_, valid_at) = last_chunk(text);
    let valid = slice_subrange(text, valid_at, text.len());
    assert(valid@ == text@.skip(valid_at as int));
    from_utf8(valid).unwrap()
}

/// What a list of chunks holds.
pub open spec fn chunk_views(chunks: Seq<(&str, &[u8])>) -> Seq<(Seq<char>, Seq<u8>)> {
    chunks.map_values(|c: (&str, &[u8])| (c.0@, c.1@))
}

/// The bytes that a list of chunks, given from the last to the first, was split from.
pub open spec fn joined_rev(chunks: Seq<(Seq<char>, Seq<u8>)>) -> Seq<u8>
    decreases chunks.len(),
{
    if chunks.len() == 0 {
        seq![]
    } else {
        joined_rev(chunks.drop_first()) + chunks[0].1 + encode_utf8(chunks[0].0)
    }
}

/// No byte gets lost or moved: put together again, the chunks of a byte string are that string.
pub proof fn law_rev_chunks_partition(bytes: Seq<u8>)
    ensures
        joined_rev(rev_chunks(bytes)) == bytes,
    decreases bytes.len(),
{
    if bytes.len() > 0 {
        let valid_at = valid_start(bytes);
        let start = chunk_start(bytes);
        lemma_chunk_start(bytes);
        law_rev_chunks_partition(bytes.take(start));
        let chunks = rev_chunks(bytes);
        assert(chunks.drop_first() == rev_chunks(bytes.take(start)));
        decode_utf8_encode_utf8(bytes.skip(valid_at));
        assert(bytes == bytes.take(start) + bytes.subrange(start, valid_at) + bytes.skip(valid_at));
    }
}

/// Valid UTF-8 is a single chunk without a broken sequence.
pub proof fn law_rev_chunks_valid(bytes: Seq<u8>)
    requires
        valid_utf8(bytes),
        bytes.len() > 0,
    ensures
        rev_chunks(bytes) == seq![(decode_utf8(bytes), Seq::<u8>::empty())],
{
    assert(bytes.skip(0) == bytes);
    assert(valid_start(bytes) == 0);
    assert(bytes.subrange(0, 0) == Seq::<u8>::empty());
    assert(bytes.take(0).len() == 0);
    assert(rev_chunks(bytes.take(0)) == Seq::<(Seq<char>, Seq<u8>)>::empty());
}

/// Every chunk but the one that the byte string starts with has a broken sequence.
pub proof fn law_rev_chunks_broken(bytes: Seq<u8>, i: int)
    requires
        0 <= i < rev_chunks(bytes).len() - 1,
    ensures
        rev_chunks(bytes)[i].1.len() > 0,
    decreases bytes.len(),
{
    lemma_chunk_start(bytes);
    let start = chunk_start(bytes);
    let rest = rev_chunks(bytes.take(start));
    if i > 0 {
        law_rev_chunks_broken(bytes.take(start), i - 1);
        assert(rev_chunks(bytes)[i] == rest[i - 1]);
    } else {
        assert(rest.len() > 0);
        assert(start > 0);
    }
}

/// What a byte string ends with as text is valid, and the longest that is.
pub proof fn law_trailing_text(bytes: Seq<u8>, i: int)
    requires
        0 <= i <= bytes.len(),
    ensures
        encode_utf8(trailing_text(bytes)).len() <= bytes.len(),
        bytes.skip(bytes.len() - encode_utf8(trailing_text(bytes)).len()) == encode_utf8(
            trailing_text(bytes),
        ),
        valid_utf8(bytes.skip(i)) ==> bytes.len() - i <= encode_utf8(trailing_text(bytes)).len(),
{
    let at = valid_start(bytes);
    lemma_valid_start_from(bytes, 0);
    decode_utf8_encode_utf8(bytes.skip(at));
    assert(encode_utf8(trailing_text(bytes)) == bytes.skip(at));
    if valid_utf8(bytes.skip(i)) && i < at {
        assert(!valid_utf8(bytes.skip(i)));
    }
}

/// The last chunk holds the longest text that a byte string ends with, and no more than four bytes before
/// that.
pub proof fn law_rev_chunks_last(bytes: Seq<u8>)
    requires
        bytes.len() > 0,
    ensures
        rev_chunks(bytes).len() > 0,
        rev_chunks(bytes)[0].0 == trailing_text(bytes),
        rev_chunks(bytes)[0].1.len() <= 4,
{
    lemma_chunk_start(bytes);
}

/// The width of a character is told from its first byte. Bytes that no character begins with have none.
pub proof fn law_char_width(bytes: Seq<u8>)
    ensures
        valid_first_scalar(bytes) ==> char_width(bytes[0]) == length_of_first_scalar(bytes),
        bytes.len() > 0 && 0x80 <= bytes[0] < 0xC2 ==> char_width(bytes[0]) == 0,
        bytes.len() > 0 && bytes[0] >= 0xF5 ==> char_width(bytes[0]) == 0,
{
    if valid_first_scalar(bytes) {
        lemma_scalar_width(bytes);
    }
}

} // verus!

