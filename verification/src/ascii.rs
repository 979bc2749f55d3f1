//! Text and bytes that are the same but for the case of ASCII letters.
use crate::utf8::{trailing_text, valid_start, valid_start_from};
use vstd::prelude::*;
use vstd::utf8::*;

verus! {

/// The number of a character, that of the small letter for an ASCII capital letter.
pub open spec fn lower(n: u32) -> u32 {
    if 65 <= n <= 90 {
        (n + 32) as u32
    } else {
        n
    }
}

/// The texts are the same but for the case of ASCII letters.
pub open spec fn same_text(a: Seq<char>, b: Seq<char>) -> bool {
    &&& a.len() == b.len()
    &&& forall|i: int| 0 <= i < a.len() ==> lower(#[trigger] a[i] as u32) == lower(b[i] as u32)
}

/// The texts of two lists are the same, each but for the case of ASCII letters.
pub open spec fn same_texts(a: Seq<Seq<char>>, b: Seq<Seq<char>>) -> bool {
    &&& a.len() == b.len()
    &&& forall|i: int| 0 <= i < a.len() ==> same_text(#[trigger] a[i], b[i])
}

/// The bytes are the same but for the case of ASCII letters.
pub open spec fn same_bytes(a: Seq<u8>, b: Seq<u8>) -> bool {
    &&& a.len() == b.len()
    &&& forall|i: int| 0 <= i < a.len() ==> lower(#[trigger] a[i] as u32) == lower(b[i] as u32)
}

/// The bytes with small letters in the place of ASCII capital letters.
pub open spec fn lowercase(bytes: Seq<u8>) -> Seq<u8> {
    bytes.map_values(
        |b: u8|
            if 65 <= b <= 90 {
                (b + 32) as u8
            } else {
                b
            },
    )
}

/// The bytes with capital letters in the place of ASCII small letters.
pub open spec fn uppercase(bytes: Seq<u8>) -> Seq<u8> {
    bytes.map_values(
        |b: u8|
            if 97 <= b <= 122 {
                (b - 32) as u8
            } else {
                b
            },
    )
}

/// The text is made of ASCII characters that are printed.
pub open spec fn is_plain(text: Seq<char>) -> bool {
    forall|i: int| 0 <= i < text.len() ==> ' ' <= #[trigger] text[i] <= '~'
}

/// The small letter for an ASCII capital letter, and the character itself for any other.
pub open spec fn small(c: char) -> char {
    if 'A' <= c <= 'Z' {
        (c as u32 + 32) as char
    } else {
        c
    }
}

/// The text with small letters in the place of ASCII capital letters.
pub open spec fn smalls(text: Seq<char>) -> Seq<char> {
    text.map_values(|c: char| small(c))
}

/// Each character of a text as a text of its own.
pub open spec fn singles(text: Seq<char>) -> Seq<Seq<char>> {
    text.map_values(|c: char| seq![c])
}

pub proof fn lemma_smalls(text: Seq<char>)
    requires
        is_plain(text),
    ensures
        is_plain(smalls(text)),
        smalls(smalls(text)) == smalls(text),
{
    assert forall|i: int| 0 <= i < text.len() implies ' ' <= #[trigger] smalls(text)[i] <= '~'
        && small(smalls(text)[i]) == smalls(text)[i] by {
        assert(' ' <= text[i] <= '~');
    }
    assert(smalls(smalls(text)) =~= smalls(text));
}

/// Put together again, the characters of a text are the text.
pub proof fn lemma_singles(text: Seq<char>)
    ensures
        singles(text).flatten() == text,
    decreases text.len(),
{
    if text.len() == 0 {
        assert(singles(text) =~= Seq::<Seq<char>>::empty());
        assert(singles(text).flatten() =~= text);
    } else {
        let rest = text.drop_first();
        lemma_singles(rest);
        let one = seq![seq![text[0]]];
        one.lemma_flatten_one_element();
        assert(singles(text) =~= one + singles(rest));
        vstd::seq_lib::lemma_flatten_concat(one, singles(rest));
        assert(singles(text).flatten() =~= text);
    }
}

/// Changing the case of all ASCII letters changes nothing but the case of ASCII letters.
pub proof fn law_case(bytes: Seq<u8>)
    ensures
        same_bytes(lowercase(bytes), bytes),
        same_bytes(uppercase(bytes), bytes),
{
}

/// Characters that are the same but for case take up the same number of bytes.
pub proof fn lemma_same_len(a: Seq<char>, b: Seq<char>)
    requires
        same_text(a, b),
    ensures
        encode_utf8(a).len() == encode_utf8(b).len(),
    decreases a.len(),
{
    if a.len() > 0 {
        assert(lower(a[0] as u32) == lower(b[0] as u32));
        assert forall|i: int| 0 <= i < a.drop_first().len() implies lower(
            #[trigger] a.drop_first()[i] as u32,
        ) == lower(b.drop_first()[i] as u32) by {
            assert(a[i + 1] == a.drop_first()[i]);
        }
        lemma_same_len(a.drop_first(), b.drop_first());
    }
}

/// Texts of which the parts are the same but for case are so themselves.
pub proof fn lemma_same_flatten(a: Seq<Seq<char>>, b: Seq<Seq<char>>)
    requires
        same_texts(a, b),
    ensures
        same_text(a.flatten(), b.flatten()),
    decreases a.len(),
{
    if a.len() > 0 {
        assert(same_text(a[0], b[0]));
        assert forall|i: int| 0 <= i < a.drop_first().len() implies same_text(
            #[trigger] a.drop_first()[i],
            b.drop_first()[i],
        ) by {
            assert(a[i + 1] == a.drop_first()[i]);
        }
        lemma_same_flatten(a.drop_first(), b.drop_first());
    }
}

pub proof fn lemma_same_take(a: Seq<Seq<char>>, b: Seq<Seq<char>>, k: int)
    requires
        same_texts(a, b),
        0 <= k <= a.len(),
    ensures
        encode_utf8(a.take(k).flatten()).len() == encode_utf8(b.take(k).flatten()).len(),
        encode_utf8(a.take(k).reverse().flatten()).len() == encode_utf8(
            b.take(k).reverse().flatten(),
        ).len(),
{
    let x = a.take(k);
    let y = b.take(k);
    assert forall|i: int| 0 <= i < k implies same_text(#[trigger] x[i], y[i]) by {
        assert(a[i] == x[i]);
    }
    lemma_same_reverse(x, y);
    lemma_same_flatten(x, y);
    lemma_same_flatten(x.reverse(), y.reverse());
    lemma_same_len(x.flatten(), y.flatten());
    lemma_same_len(x.reverse().flatten(), y.reverse().flatten());
}

pub proof fn lemma_same_reverse(a: Seq<Seq<char>>, b: Seq<Seq<char>>)
    requires
        same_texts(a, b),
    ensures
        same_texts(a.reverse(), b.reverse()),
{
    assert forall|i: int| 0 <= i < a.reverse().len() implies same_text(
        #[trigger] a.reverse()[i],
        b.reverse()[i],
    ) by {
        assert(a[a.len() - 1 - i] == a.reverse()[i]);
    }
}

pub proof fn lemma_same_subrange(a: Seq<u8>, b: Seq<u8>, from: int, to: int)
    requires
        same_bytes(a, b),
        0 <= from <= to <= a.len(),
    ensures
        same_bytes(a.subrange(from, to), b.subrange(from, to)),
{
    let x = a.subrange(from, to);
    assert forall|i: int| 0 <= i < x.len() implies lower(#[trigger] x[i] as u32) == lower(
        b.subrange(from, to)[i] as u32,
    ) by {
        assert(a[from + i] == x[i]);
    }
}

/// The first characters of bytes that are the same but for case.
proof fn lemma_same_first(a: Seq<u8>, b: Seq<u8>)
    requires
        same_bytes(a, b),
        a.len() > 0,
    ensures
        valid_first_scalar(a) == valid_first_scalar(b),
        valid_first_scalar(a) ==> length_of_first_scalar(a) == length_of_first_scalar(b),
        valid_first_scalar(a) ==> lower(decode_first_scalar(a)) == lower(decode_first_scalar(b)),
        valid_first_scalar(a) ==> 1 <= length_of_first_scalar(a) <= a.len(),
{
    assert(lower(a[0] as u32) == lower(b[0] as u32));
    if a.len() > 1 {
        assert(lower(a[1] as u32) == lower(b[1] as u32));
    }
    if a.len() > 2 {
        assert(lower(a[2] as u32) == lower(b[2] as u32));
    }
    if a.len() > 3 {
        assert(lower(a[3] as u32) == lower(b[3] as u32));
    }
    let x = a[0];
    let y = b[0];
    if x <= 0x7f {
        assert(x & 0x7F == x) by (bit_vector)
            requires
                x <= 0x7fu8,
        ;
        assert(y & 0x7F == y) by (bit_vector)
            requires
                y <= 0x7fu8,
        ;
    }
}

/// Bytes that are the same but for case are valid UTF-8 alike, and encode text that is the same but for
/// case.
pub proof fn lemma_same_decoded(a: Seq<u8>, b: Seq<u8>)
    requires
        same_bytes(a, b),
    ensures
        valid_utf8(a) == valid_utf8(b),
        valid_utf8(a) ==> same_text(decode_utf8(a), decode_utf8(b)),
    decreases a.len(),
{
    if a.len() > 0 {
        lemma_same_first(a, b);
        if valid_first_scalar(a) {
            let n = length_of_first_scalar(a);
            lemma_same_subrange(a, b, n, a.len() as int);
            lemma_same_decoded(pop_first_scalar(a), pop_first_scalar(b));
            if valid_utf8(a) {
                let x = decode_utf8(a);
                let y = decode_utf8(b);
                decode_utf8_first_scalar(a);
                decode_utf8_first_scalar(b);
                assert forall|i: int| 0 <= i < x.len() implies lower(#[trigger] x[i] as u32)
                    == lower(y[i] as u32) by {
                    if i > 0 {
                        assert(x[i] == decode_utf8(pop_first_scalar(a))[i - 1]);
                        assert(y[i] == decode_utf8(pop_first_scalar(b))[i - 1]);
                    }
                }
            }
        }
    }
}

proof fn lemma_same_valid_start(a: Seq<u8>, b: Seq<u8>, from: int)
    requires
        same_bytes(a, b),
        0 <= from <= a.len(),
    ensures
        valid_start_from(a, from) == valid_start_from(b, from),
    decreases a.len() - from,
{
    if from < a.len() {
        lemma_same_subrange(a, b, from, a.len() as int);
        assert(a.skip(from) == a.subrange(from, a.len() as int));
        assert(b.skip(from) == b.subrange(from, b.len() as int));
        lemma_same_decoded(a.skip(from), b.skip(from));
        lemma_same_valid_start(a, b, from + 1);
    }
}

/// Bytes that are the same but for case end with text that is.
pub proof fn lemma_same_trailing(a: Seq<u8>, b: Seq<u8>)
    requires
        same_bytes(a, b),
    ensures
        same_text(trailing_text(a), trailing_text(b)),
{
    lemma_same_valid_start(a, b, 0);
    crate::utf8::lemma_valid_start_from(a, 0);
    let at = valid_start(a);
    lemma_same_subrange(a, b, at, a.len() as int);
    assert(a.skip(at) == a.subrange(at, a.len() as int));
    assert(b.skip(at) == b.subrange(at, b.len() as int));
    lemma_same_decoded(a.skip(at), b.skip(at));
}

} // verus!
