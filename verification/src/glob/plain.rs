//! What a segment matches among the names of ASCII characters that are printed, where each character is a
//! cluster of its own.
use crate::ascii::{is_plain, lemma_singles, singles, smalls};
use crate::glob::gaps::{are_places, law_places, lemma_pieces_of, lemma_spans, pieces_of, Place};
use crate::glob::matching::{later_pieces, leading_text, text_matches};
use crate::glob::pattern::{prefix_len, suffix_len, PatternView, SegmentView};
use crate::glob::whole::{fits, is_cut, law_prefix, law_suffix, spans};
use crate::grapheme::{all_normalized, byte_len, graphemes_of, none_empty};
use crate::text::woven;
use crate::utf8::trailing_text;
use vstd::prelude::*;
use vstd::utf8::*;

verus! {

/// The patterns match the characters from one place to another as a whole.
pub open spec fn covers(patterns: Seq<PatternView>, text: Seq<char>, a: int, b: int) -> bool {
    spans(patterns, singles(text), a, b)
}

/// The strings follow one another from a place on, with any gaps before each of them, the last one at the
/// end of the text.
pub open spec fn follow(strs: Seq<Seq<PatternView>>, text: Seq<char>, from: int) -> bool
    decreases strs.len(),
{
    if strs.len() <= 1 {
        exists|a: int| from <= a && #[trigger] covers(strs[0], text, a, text.len() as int)
    } else {
        exists|a: int, b: int|
            from <= a && #[trigger] covers(strs[0], text, a, b) && follow(strs.skip(1), text, b)
    }
}

/// The text starts with the base string, and the other strings follow it. Without others the base string
/// is all of the text.
pub open spec fn matches_plain(segment: SegmentView, text: Seq<char>) -> bool {
    exists|k: int| #[trigger]
        covers(segment.base, text, 0, k) && if segment.floating.len() == 0 {
            k == text.len()
        } else {
            follow(segment.floating, text, k)
        }
}

/// Where the characters are that a part of a text is made of.
proof fn lemma_part(patterns: Seq<PatternView>, text: Seq<Seq<char>>, k: int, n: int, a: int, b: int)
    requires
        0 <= k <= n <= text.len(),
    ensures
        spans(patterns, text.subrange(k, n), a, b) <==> k <= k + a && k + b <= n && spans(
            patterns,
            text,
            k + a,
            k + b,
        ),
{
    let part = text.subrange(k, n);
    if spans(patterns, part, a, b) {
        let cuts = choose|cuts: Seq<int>| #[trigger]
            is_cut(patterns, part, cuts) && cuts[0] == a && cuts.last() == b;
        let moved = cuts.map_values(|c: int| c + k);
        assert forall|i: int, j: int| 0 <= i <= j < moved.len() implies 0 <= #[trigger] moved[i]
            <= #[trigger] moved[j] <= text.len() by {
            assert(0 <= cuts[i] <= cuts[j] <= part.len());
        }
        assert forall|i: int| 0 <= i < patterns.len() implies fits(
            #[trigger] patterns[i],
            text.subrange(moved[i], moved[i + 1]),
        ) by {
            assert(0 <= cuts[i] <= cuts[i + 1] <= part.len());
            assert(text.subrange(moved[i], moved[i + 1]) =~= part.subrange(cuts[i], cuts[i + 1]));
        }
        lemma_spans(patterns, part, a, b);
        assert(is_cut(patterns, text, moved));
        assert(moved.last() == moved[moved.len() - 1]);
    }
    if k <= k + a && k + b <= n && spans(patterns, text, k + a, k + b) {
        let cuts = choose|cuts: Seq<int>| #[trigger]
            is_cut(patterns, text, cuts) && cuts[0] == k + a && cuts.last() == k + b;
        let moved = cuts.map_values(|c: int| c - k);
        let last = cuts.len() - 1;
        assert forall|i: int, j: int| 0 <= i <= j < moved.len() implies 0 <= #[trigger] moved[i]
            <= #[trigger] moved[j] <= part.len() by {
            assert(cuts[0] <= cuts[i] && cuts[i] <= cuts[j] && cuts[j] <= cuts[last]);
        }
        assert forall|i: int| 0 <= i < patterns.len() implies fits(
            #[trigger] patterns[i],
            part.subrange(moved[i], moved[i + 1]),
        ) by {
            assert(cuts[0] <= cuts[i] && cuts[i] <= cuts[i + 1] && cuts[i + 1] <= cuts[last]);
            assert(part.subrange(moved[i], moved[i + 1]) =~= text.subrange(cuts[i], cuts[i + 1]));
        }
        assert(is_cut(patterns, part, moved));
        assert(moved.last() == moved[last]);
    }
}

/// What follows has places.
proof fn lemma_follow_places(strs: Seq<Seq<PatternView>>, text: Seq<char>, from: int) -> (r: (
    Seq<Place>,
    int,
))
    requires
        strs.len() > 0,
        from >= 0,
        follow(strs, text, from),
    ensures
        covers(strs.last(), text, r.1, text.len() as int),
        from <= r.1,
        r.0.len() == strs.len() - 1,
        forall|i: int|
            0 <= i < r.0.len() ==> (#[trigger] r.0[i]).piece == 0 && covers(
                strs[i],
                text,
                r.0[i].from,
                r.0[i].to,
            ) && from <= r.0[i].from && r.0[i].to <= r.1,
        forall|i: int, j: int| 0 <= i < j < r.0.len() ==> (#[trigger] r.0[i]).to <= (#[trigger] r.0[j]).from,
    decreases strs.len(),
{
    if strs.len() == 1 {
        let a = choose|a: int| from <= a && #[trigger] covers(strs[0], text, a, text.len() as int);
        (seq![], a)
    } else {
        let (a, b) = choose|a: int, b: int|
            from <= a && #[trigger] covers(strs[0], text, a, b) && follow(strs.skip(1), text, b);
        lemma_spans(strs[0], singles(text), a, b);
        let (more, end) = lemma_follow_places(strs.skip(1), text, b);
        let places = seq![Place { piece: 0, from: a, to: b }] + more;
        assert(strs.skip(1).last() == strs.last());
        assert forall|i: int| 0 <= i < places.len() implies (#[trigger] places[i]).piece == 0 && covers(
            strs[i],
            text,
            places[i].from,
            places[i].to,
        ) && from <= places[i].from && places[i].to <= end by {
            if i > 0 {
                assert(places[i] == more[i - 1]);
                assert(strs.skip(1)[i - 1] == strs[i]);
            }
        }
        assert forall|i: int, j: int| 0 <= i < j < places.len() implies (#[trigger] places[i]).to <= (
        #[trigger] places[j]).from by {
            assert(places[j] == more[j - 1]);
            if i > 0 {
                assert(places[i] == more[i - 1]);
            }
        }
        (places, end)
    }
}

/// What has places follows.
proof fn lemma_places_follow(
    strs: Seq<Seq<PatternView>>,
    text: Seq<char>,
    places: Seq<Place>,
    from: int,
    end: int,
)
    requires
        strs.len() > 0,
        covers(strs.last(), text, end, text.len() as int),
        from <= end,
        places.len() == strs.len() - 1,
        forall|i: int|
            0 <= i < places.len() ==> covers(
                strs[i],
                text,
                (#[trigger] places[i]).from,
                places[i].to,
            ) && from <= places[i].from && places[i].to <= end,
        forall|i: int, j: int|
            0 <= i < j < places.len() ==> (#[trigger] places[i]).to <= (#[trigger] places[j]).from,
    ensures
        follow(strs, text, from),
    decreases strs.len(),
{
    if strs.len() > 1 {
        let first = places[0];
        let more = places.skip(1);
        let rest = strs.skip(1);
        assert(rest.last() == strs.last());
        assert forall|i: int| 0 <= i < more.len() implies covers(
            rest[i],
            text,
            (#[trigger] more[i]).from,
            more[i].to,
        ) && first.to <= more[i].from && more[i].to <= end by {
            assert(places[0] == first && places[i + 1] == more[i]);
        }
        assert forall|i: int, j: int| 0 <= i < j < more.len() implies (#[trigger] more[i]).to <= (
        #[trigger] more[j]).from by {
            assert(places[i + 1] == more[i] && places[j + 1] == more[j]);
        }
        lemma_places_follow(rest, text, more, first.to, end);
        assert(covers(strs[0], text, first.from, first.to));
    }
}

/// The clusters of plain texts are their characters, as far as a name is taken apart.
pub open spec fn are_plain(segment: SegmentView, bytes: Seq<u8>, text: Seq<char>) -> bool {
    let n = text.len() as int;
    &&& is_plain(text)
    &&& bytes == encode_utf8(text)
    &&& leading_text(bytes) == text
    &&& graphemes_of(text) == singles(text)
    &&& all_normalized(singles(text)) == singles(smalls(text))
    &&& prefix_len(segment.base, singles(smalls(text))) matches Some(k) ==> {
        let rest = text.skip(k as int);
        segment.floating.len() > 0 ==> {
            &&& trailing_text(bytes.skip(k as int)) == rest
            &&& graphemes_of(rest) == singles(rest)
            &&& all_normalized(singles(rest)) == singles(smalls(rest))
            &&& suffix_len(segment.floating.last(), singles(smalls(rest)).reverse()) matches Some(m)
                ==> pieces_of(bytes.subrange(k as int, n - m)) == seq![
                singles(smalls(text.subrange(k as int, n - m))),
            ]
        }
    }
}

/// Plain text takes up a byte for each character.
pub proof fn lemma_plain_bytes(text: Seq<char>, a: int, b: int)
    requires
        is_plain(text),
        0 <= a <= b <= text.len(),
    ensures
        encode_utf8(text).len() == text.len(),
        is_plain(text.subrange(a, b)),
        encode_utf8(text).subrange(a, b) == encode_utf8(text.subrange(a, b)),
{
    let part = text.subrange(a, b);
    assert forall|i: int| 0 <= i < part.len() implies ' ' <= #[trigger] part[i] <= '~' by {
        assert(text[a + i] == part[i]);
    }
    assert(is_ascii_chars(text));
    assert(is_ascii_chars(part));
    is_ascii_chars_encode_utf8(text);
    is_ascii_chars_encode_utf8(part);
    assert forall|i: int| 0 <= i < part.len() implies #[trigger] encode_utf8(text).subrange(a, b)[i]
        == encode_utf8(part)[i] by {
        assert(text[a + i] == part[i]);
        assert(encode_utf8(text)[a + i] == text[a + i] as u8);
        assert(encode_utf8(part)[i] == part[i] as u8);
    }
    assert(encode_utf8(text).subrange(a, b) =~= encode_utf8(part));
}

pub proof fn lemma_single_bytes(text: Seq<char>, a: int, b: int)
    requires
        is_plain(text),
        0 <= a <= b <= text.len(),
    ensures
        byte_len(singles(text).subrange(a, b).flatten()) == b - a,
{
    assert(singles(text).subrange(a, b) =~= singles(text.subrange(a, b)));
    lemma_singles(text.subrange(a, b));
    lemma_plain_bytes(text, a, b);
    lemma_plain_bytes(text.subrange(a, b), 0, b - a);
}

proof fn lemma_singles_none_empty(text: Seq<char>)
    ensures
        none_empty(singles(text)),
{
    assert forall|i: int| 0 <= i < singles(text).len() implies (#[trigger] singles(text)[i]).len()
        > 0 by {}
}

/// A plain name matches a segment that other strings belong to exactly if they follow its base string.
proof fn lemma_plain_follow(segment: SegmentView, bytes: Seq<u8>, text: Seq<char>, k: nat)
    requires
        are_plain(segment, bytes, text),
        segment.floating.len() > 0,
        prefix_len(segment.base, singles(smalls(text))) == Some(k),
        k <= text.len(),
    ensures
        text_matches(segment, bytes) <==> follow(segment.floating, smalls(text), k as int),
{
    let n = text.len() as int;
    let name = smalls(text);
    let strs = segment.floating;
    let folded = singles(name);
    let lead = singles(text);
    lemma_single_bytes(text, 0, k as int);
    assert(lead.take(k as int) =~= lead.subrange(0, k as int));
    let rest = bytes.skip(k as int);
    let later = text.skip(k as int);
    lemma_plain_bytes(text, k as int, n);
    assert(later =~= text.subrange(k as int, n));
    assert(smalls(later) =~= name.subrange(k as int, n));
    let tail = singles(later);
    let end = singles(smalls(later));
    assert(end =~= folded.subrange(k as int, n));
    assert(all_normalized(tail.reverse()) =~= end.reverse());
    assert(end.take(n - k) =~= end);
    lemma_singles_none_empty(smalls(later));
    let found_end = suffix_len(strs.last(), end.reverse());
    if let Some(m) = found_end {
        law_suffix(strs.last(), end, n - k, m);
        lemma_spans(strs.last(), end, n - k - m, n - k);
        lemma_part(strs.last(), folded, k as int, n, n - k - m, n - k);
        let back = tail.reverse().take(m as int).reverse();
        assert(back =~= tail.subrange(n - k - m, n - k));
        lemma_single_bytes(later, n - k - m, n - k);
        let mid = rest.take(rest.len() - m);
        assert(mid =~= bytes.subrange(k as int, n - m));
        let middle = name.subrange(k as int, n - m);
        assert(smalls(text.subrange(k as int, n - m)) =~= middle);
        assert(singles(middle) =~= folded.subrange(k as int, n - m));
        lemma_pieces_of(mid);
        let pieces = pieces_of(mid);
        assert(pieces.skip(1) =~= later_pieces(mid));
        lemma_singles_none_empty(middle);
        law_places(strs.drop_last(), pieces);
        if text_matches(segment, bytes) {
            let places = choose|places: Seq<Place>| #[trigger]
                are_places(strs.drop_last(), pieces, places);
            let moved = places.map_values(
                |p: Place| Place { piece: 0, from: p.from + k, to: p.to + k },
            );
            assert forall|i: int| 0 <= i < moved.len() implies covers(
                strs[i],
                name,
                (#[trigger] moved[i]).from,
                moved[i].to,
            ) && k <= moved[i].from && moved[i].to <= n - m by {
                let p = places[i];
                assert(strs.drop_last()[i] == strs[i]);
                lemma_spans(strs[i], singles(middle), p.from, p.to);
                lemma_part(strs[i], folded, k as int, n - m, p.from, p.to);
            }
            assert forall|i: int, j: int| 0 <= i < j < moved.len() implies (#[trigger] moved[i]).to
                <= (#[trigger] moved[j]).from by {
                assert(places[i].piece == 0 && places[j].piece == 0);
            }
            lemma_places_follow(strs, name, moved, k as int, n - m);
        }
        if follow(strs, name, k as int) {
            let (places, at) = lemma_follow_places(strs, name, k as int);
            lemma_spans(strs.last(), folded, at, n);
            lemma_part(strs.last(), folded, k as int, n, at - k, n - k);
            law_suffix(strs.last(), end, n - k, (n - at) as nat);
            assert(m == n - at);
            let moved = places.map_values(
                |p: Place| Place { piece: 0, from: p.from - k, to: p.to - k },
            );
            assert forall|i: int| 0 <= i < moved.len() implies 0 <= (#[trigger] moved[i]).piece
                < pieces.len() && spans(
                strs.drop_last()[i],
                pieces[moved[i].piece],
                moved[i].from,
                moved[i].to,
            ) by {
                let p = places[i];
                lemma_part(strs[i], folded, k as int, n - m, p.from - k, p.to - k);
            }
            assert forall|i: int, j: int| 0 <= i < j < moved.len() implies {
                ||| (#[trigger] moved[i]).piece < (#[trigger] moved[j]).piece
                ||| moved[i].piece == moved[j].piece && moved[i].to <= moved[j].from
            } by {
                assert(places[i].to <= places[j].from);
            }
            assert(are_places(strs.drop_last(), pieces, moved));
        }
    } else if follow(strs, name, k as int) {
        let (_, at) = lemma_follow_places(strs, name, k as int);
        lemma_spans(strs.last(), folded, at, n);
        lemma_part(strs.last(), folded, k as int, n, at - k, n - k);
        law_suffix(strs.last(), end, n - k, (n - at) as nat);
    }
}

/// A plain name matches a segment exactly if its characters, in small letters, do.
pub proof fn lemma_plain(segment: SegmentView, bytes: Seq<u8>, text: Seq<char>)
    requires
        are_plain(segment, bytes, text),
    ensures
        text_matches(segment, bytes) <==> matches_plain(segment, smalls(text)),
{
    let n = text.len() as int;
    let name = smalls(text);
    let folded = singles(name);
    assert(folded.skip(0) =~= folded);
    lemma_singles_none_empty(name);
    lemma_plain_bytes(text, 0, n);
    if let Some(k) = prefix_len(segment.base, folded) {
        law_prefix(segment.base, folded, 0, k);
        lemma_spans(segment.base, folded, 0, k as int);
        assert(covers(segment.base, name, 0, k as int));
        lemma_single_bytes(text, 0, k as int);
        assert(singles(text).take(k as int) =~= singles(text).subrange(0, k as int));
        if segment.floating.len() > 0 {
            lemma_plain_follow(segment, bytes, text, k);
        }
    }
    if matches_plain(segment, name) {
        let k = choose|k: int| #[trigger]
            covers(segment.base, name, 0, k) && if segment.floating.len() == 0 {
                k == name.len()
            } else {
                follow(segment.floating, name, k)
            };
        lemma_spans(segment.base, folded, 0, k);
        law_prefix(segment.base, folded, 0, k as nat);
        assert(prefix_len(segment.base, folded) == Some(k as nat));
    }
}

/// The patterns match all of a text.
pub open spec fn is_whole(patterns: Seq<PatternView>, text: Seq<char>) -> bool {
    covers(patterns, text, 0, text.len() as int)
}

/// A literal matches itself, and wildcards match that many characters, whatever they are.
pub proof fn law_whole_one(pattern: PatternView, text: Seq<char>)
    ensures
        is_whole(seq![pattern], text) <==> match pattern {
            PatternView::Lit(lit) => text.len() > 0 && text == lit,
            PatternView::AnyGraphemes(n) => text.len() == n,
        },
{
    let n = text.len() as int;
    let all = singles(text);
    let patterns = seq![pattern];
    lemma_singles(text);
    assert(all.subrange(0, n) =~= all);
    if is_whole(patterns, text) {
        let cuts = choose|cuts: Seq<int>| #[trigger]
            is_cut(patterns, all, cuts) && cuts[0] == 0 && cuts.last() == n;
        assert(fits(patterns[0], all.subrange(cuts[0], cuts[1])));
    }
    if fits(pattern, all) {
        let cuts = seq![0, n];
        assert forall|i: int| 0 <= i < patterns.len() implies fits(
            #[trigger] patterns[i],
            all.subrange(cuts[i], cuts[i + 1]),
        ) by {
            assert(cuts[0] == 0 && cuts[1] == n);
        }
        assert(is_cut(patterns, all, cuts));
    }
}

/// No patterns match no text.
pub proof fn law_whole_none(text: Seq<char>)
    ensures
        is_whole(seq![], text) <==> text.len() == 0,
{
    let none = Seq::<PatternView>::empty();
    if is_whole(none, text) {
        let cuts = choose|cuts: Seq<int>| #[trigger]
            is_cut(none, singles(text), cuts) && cuts[0] == 0 && cuts.last() == text.len();
        assert(cuts.last() == cuts[0]);
    }
    if text.len() == 0 {
        assert(is_cut(none, singles(text), seq![0]));
    }
}

/// Where the patterns of two lists, one after the other, are cut.
proof fn lemma_covers_two(
    first: Seq<PatternView>,
    second: Seq<PatternView>,
    text: Seq<char>,
    a: int,
    b: int,
)
    ensures
        covers(first + second, text, a, b) <==> exists|k: int| #[trigger]
            covers(first, text, a, k) && covers(second, text, k, b),
{
    let all = singles(text);
    let both = first + second;
    let n = first.len() as int;
    if covers(both, text, a, b) {
        let cuts = choose|cuts: Seq<int>| #[trigger]
            is_cut(both, all, cuts) && cuts[0] == a && cuts.last() == b;
        let head = cuts.take(n + 1);
        let tail = cuts.skip(n);
        assert forall|i: int| 0 <= i < first.len() implies fits(
            #[trigger] first[i],
            all.subrange(head[i], head[i + 1]),
        ) by {
            assert(both[i] == first[i]);
        }
        assert forall|i: int| 0 <= i < second.len() implies fits(
            #[trigger] second[i],
            all.subrange(tail[i], tail[i + 1]),
        ) by {
            assert(both[n + i] == second[i]);
            assert(cuts[n + i] == tail[i] && cuts[n + i + 1] == tail[i + 1]);
        }
        assert(is_cut(first, all, head));
        assert(is_cut(second, all, tail));
        assert(tail.last() == cuts.last());
        assert(covers(first, text, a, cuts[n]));
    }
    if exists|k: int| #[trigger] covers(first, text, a, k) && covers(second, text, k, b) {
        let k = choose|k: int| #[trigger] covers(first, text, a, k) && covers(second, text, k, b);
        let head = choose|cuts: Seq<int>| #[trigger]
            is_cut(first, all, cuts) && cuts[0] == a && cuts.last() == k;
        let tail = choose|cuts: Seq<int>| #[trigger]
            is_cut(second, all, cuts) && cuts[0] == k && cuts.last() == b;
        let cuts = head + tail.skip(1);
        assert(head[n] == head.last());
        assert forall|i: int| n <= i < cuts.len() implies #[trigger] cuts[i] == tail[i - n] by {}
        assert forall|i: int, j: int| 0 <= i <= j < cuts.len() implies 0 <= #[trigger] cuts[i]
            <= #[trigger] cuts[j] <= all.len() by {
            if i <= n {
                assert(cuts[i] == head[i]);
                assert(0 <= head[i] <= head[n]);
                if j <= n {
                    assert(cuts[j] == head[j]);
                } else {
                    assert(tail[0] <= tail[j - n] <= all.len());
                }
            } else {
                assert(0 <= tail[i - n] <= tail[j - n] <= all.len());
            }
        }
        assert forall|i: int| 0 <= i < both.len() implies fits(
            #[trigger] both[i],
            all.subrange(cuts[i], cuts[i + 1]),
        ) by {
            if i < n {
                assert(both[i] == first[i]);
                assert(cuts[i] == head[i] && cuts[i + 1] == head[i + 1]);
            } else {
                assert(both[i] == second[i - n]);
                assert(cuts[i] == tail[i - n] && cuts[i + 1] == tail[i - n + 1]);
            }
        }
        assert(is_cut(both, all, cuts));
        assert(cuts.last() == tail.last());
    }
}

/// Patterns match a part of a text exactly if they match all of that part.
pub proof fn lemma_covers_part(patterns: Seq<PatternView>, text: Seq<char>, a: int, b: int)
    requires
        0 <= a <= b <= text.len(),
    ensures
        covers(patterns, text, a, b) <==> is_whole(patterns, text.subrange(a, b)),
{
    assert(singles(text).subrange(a, b) =~= singles(text.subrange(a, b)));
    lemma_part(patterns, singles(text), a, b, 0, b - a);
}

/// Patterns one after another match a text exactly if it is made of what the first ones match and what
/// the others match, with nothing in between.
pub proof fn law_whole_two(first: Seq<PatternView>, second: Seq<PatternView>, text: Seq<char>)
    ensures
        is_whole(first + second, text) <==> exists|k: int|
            0 <= k <= text.len() && #[trigger] is_whole(first, text.take(k)) && is_whole(
                second,
                text.skip(k),
            ),
{
    let n = text.len() as int;
    lemma_covers_two(first, second, text, 0, n);
    assert forall|k: int| 0 <= k <= n implies text.take(k) == #[trigger] text.subrange(0, k) && text.skip(
        k,
    ) == text.subrange(k, n) by {
        assert(text.take(k) =~= text.subrange(0, k));
        assert(text.skip(k) =~= text.subrange(k, n));
    }
    if is_whole(first + second, text) {
        let k = choose|k: int| #[trigger] covers(first, text, 0, k) && covers(second, text, k, n);
        lemma_spans(first, singles(text), 0, k);
        lemma_covers_part(first, text, 0, k);
        lemma_covers_part(second, text, k, n);
        assert(text.subrange(0, k) == text.take(k));
        assert(is_whole(first, text.take(k)));
    }
    if exists|k: int|
        0 <= k <= text.len() && #[trigger] is_whole(first, text.take(k)) && is_whole(
            second,
            text.skip(k),
        ) {
        let k = choose|k: int|
            0 <= k <= text.len() && #[trigger] is_whole(first, text.take(k)) && is_whole(
                second,
                text.skip(k),
            );
        lemma_covers_part(first, text, 0, k);
        lemma_covers_part(second, text, k, n);
        assert(text.subrange(0, k) == text.take(k));
        assert(covers(first, text, 0, k) && covers(second, text, k, n));
    }
}

/// Each of the strings matches all of the part that is its own.
pub open spec fn are_parts(strs: Seq<Seq<PatternView>>, parts: Seq<Seq<char>>) -> bool {
    &&& parts.len() == strs.len()
    &&& forall|i: int| 0 <= i < strs.len() ==> is_whole(#[trigger] strs[i], parts[i])
}

/// Parts behind gaps follow one another.
proof fn lemma_weave(
    strs: Seq<Seq<PatternView>>,
    text: Seq<char>,
    from: int,
    gaps: Seq<Seq<char>>,
    parts: Seq<Seq<char>>,
)
    requires
        strs.len() > 0,
        0 <= from <= text.len(),
        gaps.len() == strs.len(),
        are_parts(strs, parts),
        text.skip(from) == woven(gaps, parts),
    ensures
        follow(strs, text, from),
    decreases strs.len(),
{
    let a = from + gaps[0].len();
    let b = a + parts[0].len();
    let rest = woven(gaps.skip(1), parts.skip(1));
    assert(text.skip(from) =~= gaps[0] + parts[0] + rest);
    assert(text.skip(from).len() == gaps[0].len() + parts[0].len() + rest.len());
    assert(text.subrange(a, b) =~= parts[0]) by {
        assert forall|i: int| 0 <= i < parts[0].len() implies #[trigger] text.subrange(a, b)[i]
            == parts[0][i] by {
            assert(text.skip(from)[gaps[0].len() + i] == parts[0][i]);
        }
    }
    assert(text.skip(b) =~= rest) by {
        assert forall|i: int| 0 <= i < rest.len() implies #[trigger] text.skip(b)[i] == rest[i] by {
            assert(text.skip(from)[gaps[0].len() + parts[0].len() + i] == rest[i]);
        }
    }
    assert(is_whole(strs[0], parts[0]));
    lemma_covers_part(strs[0], text, a, b);
    if strs.len() == 1 {
        assert(rest.len() == 0);
        assert(b == text.len());
    } else {
        assert forall|i: int| 0 <= i < strs.skip(1).len() implies is_whole(
            #[trigger] strs.skip(1)[i],
            parts.skip(1)[i],
        ) by {
            assert(is_whole(strs[i + 1], parts[i + 1]));
        }
        lemma_weave(strs.skip(1), text, b, gaps.skip(1), parts.skip(1));
    }
}

/// What follows is parts behind gaps.
proof fn lemma_unweave(strs: Seq<Seq<PatternView>>, text: Seq<char>, from: int) -> (r: (
    Seq<Seq<char>>,
    Seq<Seq<char>>,
))
    requires
        strs.len() > 0,
        0 <= from <= text.len(),
        follow(strs, text, from),
    ensures
        r.0.len() == strs.len(),
        are_parts(strs, r.1),
        text.skip(from) == woven(r.0, r.1),
    decreases strs.len(),
{
    let n = text.len() as int;
    if strs.len() == 1 {
        let a = choose|a: int| from <= a && #[trigger] covers(strs[0], text, a, n);
        lemma_spans(strs[0], singles(text), a, n);
        lemma_covers_part(strs[0], text, a, n);
        let gaps = seq![text.subrange(from, a)];
        let parts = seq![text.subrange(a, n)];
        assert(woven(gaps.skip(1), parts.skip(1)) =~= seq![]);
        assert(text.skip(from) =~= woven(gaps, parts));
        (gaps, parts)
    } else {
        let (a, b) = choose|a: int, b: int|
            from <= a && #[trigger] covers(strs[0], text, a, b) && follow(strs.skip(1), text, b);
        lemma_spans(strs[0], singles(text), a, b);
        lemma_covers_part(strs[0], text, a, b);
        let (more_gaps, more) = lemma_unweave(strs.skip(1), text, b);
        let gaps = seq![text.subrange(from, a)] + more_gaps;
        let parts = seq![text.subrange(a, b)] + more;
        assert(gaps.skip(1) =~= more_gaps);
        assert(parts.skip(1) =~= more);
        assert(text.skip(from) =~= gaps[0] + parts[0] + text.skip(b));
        assert forall|i: int| 0 <= i < strs.len() implies is_whole(#[trigger] strs[i], parts[i]) by {
            if i > 0 {
                assert(is_whole(strs.skip(1)[i - 1], more[i - 1]));
            }
        }
        (gaps, parts)
    }
}

/// A plain text matches a segment exactly if it is made of what the base string matches and then, for each
/// of the other strings in turn, a gap of any length, none included, and what the string matches, with
/// nothing behind the last.
pub proof fn law_woven(segment: SegmentView, text: Seq<char>)
    ensures
        matches_plain(segment, text) <==> exists|
            head: Seq<char>,
            gaps: Seq<Seq<char>>,
            parts: Seq<Seq<char>>,
        |
            #[trigger] is_whole(segment.base, head) && are_parts(segment.floating, parts) && gaps.len()
                == parts.len() && text == head + #[trigger] woven(gaps, parts),
{
    let strs = segment.floating;
    if matches_plain(segment, text) {
        let k = choose|k: int| #[trigger]
            covers(segment.base, text, 0, k) && if strs.len() == 0 {
                k == text.len()
            } else {
                follow(strs, text, k)
            };
        lemma_spans(segment.base, singles(text), 0, k);
        lemma_covers_part(segment.base, text, 0, k);
        let head = text.subrange(0, k);
        if strs.len() == 0 {
            let none = Seq::<Seq<char>>::empty();
            assert(text =~= head + woven(none, none));
        } else {
            let (gaps, parts) = lemma_unweave(strs, text, k);
            assert(text =~= head + text.skip(k));
            assert(text == head + woven(gaps, parts));
        }
    }
    if exists|head: Seq<char>, gaps: Seq<Seq<char>>, parts: Seq<Seq<char>>|
        #[trigger] is_whole(segment.base, head) && are_parts(segment.floating, parts) && gaps.len()
            == parts.len() && text == head + #[trigger] woven(gaps, parts) {
        let (head, gaps, parts) = choose|
            head: Seq<char>,
            gaps: Seq<Seq<char>>,
            parts: Seq<Seq<char>>,
        |
            #[trigger] is_whole(segment.base, head) && are_parts(segment.floating, parts) && gaps.len()
                == parts.len() && text == head + #[trigger] woven(gaps, parts);
        let k = head.len() as int;
        assert(text.subrange(0, k) =~= head);
        lemma_covers_part(segment.base, text, 0, k);
        assert(text.skip(k) =~= woven(gaps, parts));
        if strs.len() > 0 {
            lemma_weave(strs, text, k, gaps, parts);
        }
        assert(covers(segment.base, text, 0, k));
    }
}

/// `*` between two literals stands for any text, none included: what matches is what starts with the one
/// and ends with the other, and is long enough for both.
pub proof fn law_star(x: Seq<char>, y: Seq<char>, text: Seq<char>)
    requires
        x.len() > 0,
        y.len() > 0,
    ensures
        matches_plain(
            SegmentView {
                base: seq![PatternView::Lit(x)],
                floating: seq![seq![PatternView::Lit(y)]],
            },
            text,
        ) <==> x.len() + y.len() <= text.len() && text.take(x.len() as int) == x && text.skip(
            text.len() - y.len(),
        ) == y,
{
    let base = seq![PatternView::Lit(x)];
    let last = seq![PatternView::Lit(y)];
    let segment = SegmentView { base, floating: seq![last] };
    law_woven(segment, text);
    law_whole_one(base[0], x);
    law_whole_one(last[0], y);
    if matches_plain(segment, text) {
        let (head, gaps, parts) = choose|
            head: Seq<char>,
            gaps: Seq<Seq<char>>,
            parts: Seq<Seq<char>>,
        |
            #[trigger] is_whole(segment.base, head) && are_parts(segment.floating, parts) && gaps.len()
                == parts.len() && text == head + #[trigger] woven(gaps, parts);
        law_whole_one(base[0], head);
        assert(is_whole(segment.floating[0], parts[0]));
        law_whole_one(last[0], parts[0]);
        assert(woven(gaps.skip(1), parts.skip(1)) =~= seq![]);
        assert(woven(gaps, parts) =~= gaps[0] + y);
        assert(text =~= x + gaps[0] + y);
        assert(text.take(x.len() as int) =~= x);
        assert(text.skip(text.len() - y.len()) =~= y);
    }
    if x.len() + y.len() <= text.len() && text.take(x.len() as int) == x && text.skip(
        text.len() - y.len(),
    ) == y {
        let gaps = seq![text.subrange(x.len() as int, text.len() - y.len())];
        let parts = seq![y];
        assert(woven(gaps.skip(1), parts.skip(1)) =~= seq![]);
        assert(text =~= x + woven(gaps, parts)) by {
            assert(text =~= text.take(x.len() as int) + gaps[0] + text.skip(text.len() - y.len()));
        }
        assert forall|i: int| 0 <= i < segment.floating.len() implies is_whole(
            #[trigger] segment.floating[i],
            parts[i],
        ) by {
            assert(segment.floating[0] == last && parts[0] == y);
        }
        assert(is_whole(segment.base, x) && are_parts(segment.floating, parts));
        assert(gaps.len() == parts.len() && text == x + woven(gaps, parts));
    }
}

} // verus!
