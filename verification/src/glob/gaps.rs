//! A name matches a segment exactly if it can be split up: into what the segment starts with, what it ends
//! with, and what else there is of it in between, with gaps of any length, or none.
use crate::glob::finding::{is_place, law_first_fit, placed, rest_of};
use crate::glob::matching::{found, later_pieces, leading_text, text_matches};
use crate::glob::pattern::{prefix_len, suffix_len, PatternView, SegmentView};
use crate::glob::whole::{is_cut, law_prefix, law_suffix, spans};
use crate::grapheme::{all_normalized, byte_len, graphemes_of, none_empty, rev_graphemes_of};
use crate::utf8::{trailing_text, utf8_chunks_of};
use vstd::prelude::*;

verus! {

/// A place for a string: a piece of text, and the clusters of it where the string starts and ends.
pub struct Place {
    pub piece: int,
    pub from: int,
    pub to: int,
}

/// Each of the strings matches the clusters at its place as a whole, and each place is behind those before
/// it.
pub open spec fn are_places(
    strs: Seq<Seq<PatternView>>,
    pieces: Seq<Seq<Seq<char>>>,
    places: Seq<Place>,
) -> bool {
    &&& places.len() == strs.len()
    &&& forall|i: int|
        0 <= i < places.len() ==> 0 <= (#[trigger] places[i]).piece < pieces.len() && spans(
            strs[i],
            pieces[places[i].piece],
            places[i].from,
            places[i].to,
        )
    &&& forall|i: int, j: int|
        0 <= i < j < places.len() ==> {
            ||| (#[trigger] places[i]).piece < (#[trigger] places[j]).piece
            ||| places[i].piece == places[j].piece && places[i].to <= places[j].from
        }
}

/// The places are all behind a place.
spec fn are_behind(places: Seq<Place>, piece: int, from: int) -> bool {
    forall|i: int|
        0 <= i < places.len() ==> {
            ||| piece < (#[trigger] places[i]).piece
            ||| piece == places[i].piece && from <= places[i].from
        }
}

/// The pieces of valid text in a byte string, each as its normalized clusters. The first is the text that
/// it starts with.
pub open spec fn pieces_of(bytes: Seq<u8>) -> Seq<Seq<Seq<char>>> {
    if utf8_chunks_of(bytes).len() == 0 {
        seq![all_normalized(graphemes_of(seq![]))]
    } else {
        utf8_chunks_of(bytes).map_values(
            |c: (Seq<char>, Seq<u8>)| all_normalized(graphemes_of(c.0)),
        )
    }
}

/// The base string is what the first clusters of a name match, and the rest of the name is made of that
/// many clusters for the last of the other strings, at its end, and places for the others before that.
pub open spec fn is_split(segment: SegmentView, bytes: Seq<u8>, k: nat, m: nat) -> bool {
    let lead = graphemes_of(leading_text(bytes));
    let rest = bytes.skip(byte_len(lead.take(k as int).flatten()) as int);
    let tail = graphemes_of(trailing_text(rest));
    let end = tail.skip(tail.len() - m);
    let mid = rest.take(rest.len() - byte_len(end.flatten()));
    &&& k <= lead.len()
    &&& spans(segment.base, all_normalized(lead), 0, k as int)
    &&& if segment.floating.len() == 0 {
        rest.len() == 0
    } else {
        &&& m <= tail.len()
        &&& spans(
            segment.floating.last(),
            all_normalized(tail),
            tail.len() - m,
            tail.len() as int,
        )
        &&& exists|places: Seq<Place>| #[trigger]
            are_places(segment.floating.drop_last(), pieces_of(mid), places)
    }
}

/// A name can be split up into what a segment is made of.
pub open spec fn splits(segment: SegmentView, bytes: Seq<u8>) -> bool {
    exists|k: nat, m: nat| #[trigger] is_split(segment, bytes, k, m)
}

/// What is cut out is in the text.
pub proof fn lemma_spans(patterns: Seq<PatternView>, text: Seq<Seq<char>>, a: int, b: int)
    requires
        spans(patterns, text, a, b),
    ensures
        0 <= a <= b <= text.len(),
{
    let cuts = choose|cuts: Seq<int>| #[trigger]
        is_cut(patterns, text, cuts) && cuts[0] == a && cuts.last() == b;
    assert(0 <= cuts[0] <= cuts[cuts.len() - 1] <= text.len());
}

/// Strings that can be placed one after another have places.
proof fn lemma_find_places(
    strs: Seq<Seq<PatternView>>,
    all: Seq<Seq<Seq<char>>>,
    q: int,
    a: int,
) -> (places: Seq<Place>)
    requires
        0 <= q < all.len(),
        0 <= a <= all[q].len(),
        forall|i: int| 0 <= i < all.len() ==> none_empty(#[trigger] all[i]),
        placed(strs, all[q].skip(a), all.skip(q + 1)),
    ensures
        are_places(strs, all, places),
        are_behind(places, q, a),
    decreases strs.len(),
{
    if strs.len() == 0 {
        seq![]
    } else {
        let cur = all[q].skip(a);
        let behind = all.skip(q + 1);
        let (piece, from) = choose|piece: int, from: int|
            is_place(cur, behind, piece, from) && {
                let rest = #[trigger] rest_of(cur, behind, piece, from);
                prefix_len(strs[0], rest) matches Some(k) && placed(
                    strs.skip(1),
                    rest.skip(k as int),
                    behind.skip(piece),
                )
            };
        let rest = rest_of(cur, behind, piece, from);
        let k = prefix_len(strs[0], rest)->0;
        let p = q + piece;
        let at = if piece == 0 {
            a + from
        } else {
            from
        };
        assert(rest =~= all[p].skip(at));
        law_prefix(strs[0], all[p], at, k);
        lemma_spans(strs[0], all[p], at, at + k);
        assert(rest.skip(k as int) =~= all[p].skip(at + k));
        assert(behind.skip(piece) =~= all.skip(p + 1));
        let more = lemma_find_places(strs.skip(1), all, p, at + k);
        let places = seq![Place { piece: p, from: at, to: at + k }] + more;
        assert forall|i: int| 0 <= i < places.len() implies 0 <= (#[trigger] places[i]).piece
            < all.len() && spans(
            strs[i],
            all[places[i].piece],
            places[i].from,
            places[i].to,
        ) by {
            if i > 0 {
                assert(places[i] == more[i - 1]);
                assert(strs.skip(1)[i - 1] == strs[i]);
            }
        }
        assert forall|i: int, j: int| 0 <= i < j < places.len() implies {
            ||| (#[trigger] places[i]).piece < (#[trigger] places[j]).piece
            ||| places[i].piece == places[j].piece && places[i].to <= places[j].from
        } by {
            assert(places[j] == more[j - 1]);
            if i > 0 {
                assert(places[i] == more[i - 1]);
            }
        }
        assert forall|i: int| 0 <= i < places.len() implies {
            ||| q < (#[trigger] places[i]).piece
            ||| q == places[i].piece && a <= places[i].from
        } by {
            if i > 0 {
                assert(places[i] == more[i - 1]);
            }
        }
        places
    }
}

/// Strings that have places can be placed one after another.
proof fn lemma_use_places(
    strs: Seq<Seq<PatternView>>,
    all: Seq<Seq<Seq<char>>>,
    places: Seq<Place>,
    q: int,
    a: int,
)
    requires
        0 <= q < all.len(),
        0 <= a <= all[q].len(),
        forall|i: int| 0 <= i < all.len() ==> none_empty(#[trigger] all[i]),
        are_places(strs, all, places),
        are_behind(places, q, a),
    ensures
        placed(strs, all[q].skip(a), all.skip(q + 1)),
    decreases strs.len(),
{
    if strs.len() > 0 {
        let cur = all[q].skip(a);
        let behind = all.skip(q + 1);
        let first = places[0];
        let more = places.skip(1);
        let p = first.piece;
        let k = (first.to - first.from) as nat;
        lemma_spans(strs[0], all[p], first.from, first.to);
        law_prefix(strs[0], all[p], first.from, k);
        let piece = p - q;
        let from = if piece == 0 {
            first.from - a
        } else {
            first.from
        };
        let rest = rest_of(cur, behind, piece, from);
        assert(rest =~= all[p].skip(first.from));
        assert(rest.skip(k as int) =~= all[p].skip(first.to));
        assert(behind.skip(piece) =~= all.skip(p + 1));
        assert forall|i: int| 0 <= i < more.len() implies 0 <= (#[trigger] more[i]).piece < all.len()
            && spans(strs.skip(1)[i], all[more[i].piece], more[i].from, more[i].to) by {
            assert(places[i + 1] == more[i]);
        }
        assert forall|i: int, j: int| 0 <= i < j < more.len() implies {
            ||| (#[trigger] more[i]).piece < (#[trigger] more[j]).piece
            ||| more[i].piece == more[j].piece && more[i].to <= more[j].from
        } by {
            assert(places[i + 1] == more[i] && places[j + 1] == more[j]);
        }
        assert forall|i: int| 0 <= i < more.len() implies {
            ||| p < (#[trigger] more[i]).piece
            ||| p == more[i].piece && first.to <= more[i].from
        } by {
            assert(places[0] == first && places[i + 1] == more[i]);
        }
        lemma_use_places(strs.skip(1), all, more, p, first.to);
        assert(is_place(cur, behind, piece, from));
        assert(prefix_len(strs[0], rest) == Some(k));
    }
}

/// A search that takes each string at the first place where it fits finds the strings exactly if there are
/// places for all of them.
pub proof fn law_places(strs: Seq<Seq<PatternView>>, pieces: Seq<Seq<Seq<char>>>)
    requires
        pieces.len() > 0,
        forall|i: int| 0 <= i < pieces.len() ==> none_empty(#[trigger] pieces[i]),
    ensures
        found(strs, pieces[0], pieces.skip(1)) <==> exists|places: Seq<Place>| #[trigger]
            are_places(strs, pieces, places),
{
    law_first_fit(strs, pieces[0], pieces.skip(1));
    assert(pieces[0].skip(0) =~= pieces[0]);
    if found(strs, pieces[0], pieces.skip(1)) {
        let places = lemma_find_places(strs, pieces, 0, 0);
        assert(are_places(strs, pieces, places));
    }
    if exists|places: Seq<Place>| #[trigger] are_places(strs, pieces, places) {
        let places = choose|places: Seq<Place>| #[trigger] are_places(strs, pieces, places);
        assert forall|i: int| 0 <= i < places.len() implies {
            ||| 0 < (#[trigger] places[i]).piece
            ||| 0 == places[i].piece && 0 <= places[i].from
        } by {
            lemma_spans(strs[i], pieces[places[i].piece], places[i].from, places[i].to);
        }
        lemma_use_places(strs, pieces, places, 0, 0);
    }
}

pub proof fn lemma_pieces_of(bytes: Seq<u8>)
    ensures
        pieces_of(bytes) == seq![all_normalized(graphemes_of(leading_text(bytes)))] + later_pieces(
            bytes,
        ),
{
    let all = seq![all_normalized(graphemes_of(leading_text(bytes)))] + later_pieces(bytes);
    assert(pieces_of(bytes) =~= all);
}

/// None of the clusters is empty that a name is taken apart into, as far as it is.
pub open spec fn are_clusters(segment: SegmentView, bytes: Seq<u8>) -> bool {
    let lead = graphemes_of(leading_text(bytes));
    &&& none_empty(all_normalized(lead))
    &&& prefix_len(segment.base, all_normalized(lead)) matches Some(k) ==> {
        let rest = bytes.skip(byte_len(lead.take(k as int).flatten()) as int);
        let tail = rev_graphemes_of(trailing_text(rest));
        segment.floating.len() > 0 ==> {
            &&& none_empty(all_normalized(graphemes_of(trailing_text(rest))))
            &&& suffix_len(segment.floating.last(), all_normalized(tail)) matches Some(m) ==> {
                let mid = rest.take(rest.len() - byte_len(tail.take(m as int).reverse().flatten()));
                forall|i: int|
                    0 <= i < pieces_of(mid).len() ==> none_empty(#[trigger] pieces_of(mid)[i])
            }
        }
    }
}

/// What is left behind the first clusters.
spec fn rest_after(bytes: Seq<u8>, k: nat) -> Seq<u8> {
    let lead = graphemes_of(leading_text(bytes));
    bytes.skip(byte_len(lead.take(k as int).flatten()) as int)
}

/// What a name ends with is found from its end.
proof fn lemma_tail(segment: SegmentView, rest: Seq<u8>, m: nat)
    requires
        none_empty(all_normalized(graphemes_of(trailing_text(rest)))),
    ensures
        suffix_len(
            segment.floating.last(),
            all_normalized(rev_graphemes_of(trailing_text(rest))),
        ) == Some(m) <==> m <= graphemes_of(trailing_text(rest)).len() && spans(
            segment.floating.last(),
            all_normalized(graphemes_of(trailing_text(rest))),
            graphemes_of(trailing_text(rest)).len() - m,
            graphemes_of(trailing_text(rest)).len() as int,
        ),
        m <= graphemes_of(trailing_text(rest)).len() ==> rev_graphemes_of(trailing_text(rest)).take(
            m as int,
        ).reverse() == graphemes_of(trailing_text(rest)).skip(
            graphemes_of(trailing_text(rest)).len() - m,
        ),
{
    let tail = graphemes_of(trailing_text(rest));
    let n = tail.len() as int;
    let folded = all_normalized(tail);
    assert(folded.take(n) =~= folded);
    assert(all_normalized(tail.reverse()) =~= folded.reverse());
    law_suffix(segment.floating.last(), folded, n, m);
    if spans(segment.floating.last(), folded, n - m, n) {
        lemma_spans(segment.floating.last(), folded, n - m, n);
    }
    if m <= n {
        assert(tail.reverse().take(m as int).reverse() =~= tail.skip(n - m));
    }
}

/// A name matches a segment exactly if it can be split up into the base string at its start, the last of
/// the other strings at its end, and the others in between, in order, without overlap, and with gaps of
/// any length, none included. None of the clusters may be empty, as none is that a text is split into.
pub proof fn law_split(segment: SegmentView, bytes: Seq<u8>)
    requires
        are_clusters(segment, bytes),
    ensures
        text_matches(segment, bytes) <==> splits(segment, bytes),
{
    let lead = graphemes_of(leading_text(bytes));
    let folded = all_normalized(lead);
    assert(folded.skip(0) =~= folded);
    if text_matches(segment, bytes) {
        let k = prefix_len(segment.base, folded)->0;
        law_prefix(segment.base, folded, 0, k);
        lemma_spans(segment.base, folded, 0, k as int);
        let rest = rest_after(bytes, k);
        if segment.floating.len() == 0 {
            assert(is_split(segment, bytes, k, 0));
        } else {
            let rev = rev_graphemes_of(trailing_text(rest));
            let m = suffix_len(segment.floating.last(), all_normalized(rev))->0;
            lemma_tail(segment, rest, m);
            let mid = rest.take(rest.len() - byte_len(rev.take(m as int).reverse().flatten()));
            lemma_pieces_of(mid);
            assert(pieces_of(mid).skip(1) =~= later_pieces(mid));
            law_places(segment.floating.drop_last(), pieces_of(mid));
            assert(is_split(segment, bytes, k, m));
        }
    }
    if splits(segment, bytes) {
        let (k, m) = choose|k: nat, m: nat| #[trigger] is_split(segment, bytes, k, m);
        law_prefix(segment.base, folded, 0, k);
        assert(prefix_len(segment.base, folded) == Some(k));
        let rest = rest_after(bytes, k);
        if segment.floating.len() > 0 {
            lemma_tail(segment, rest, m);
            let rev = rev_graphemes_of(trailing_text(rest));
            let mid = rest.take(rest.len() - byte_len(rev.take(m as int).reverse().flatten()));
            lemma_pieces_of(mid);
            assert(pieces_of(mid).skip(1) =~= later_pieces(mid));
            law_places(segment.floating.drop_last(), pieces_of(mid));
        }
    }
}

/// A name matches that starts with clusters that the base string matches and ends, in what is left, with
/// clusters that the last of the other strings matches, if there are places for the others between the
/// two, in order. What else there is between them makes no difference, and there may be nothing.
pub proof fn law_gaps_match(
    segment: SegmentView,
    bytes: Seq<u8>,
    rest: Seq<u8>,
    mid: Seq<u8>,
    k: nat,
    m: nat,
    places: Seq<Place>,
)
    requires
        are_clusters(segment, bytes),
        segment.floating.len() > 0,
        k <= graphemes_of(leading_text(bytes)).len(),
        spans(segment.base, all_normalized(graphemes_of(leading_text(bytes))), 0, k as int),
        rest == bytes.skip(
            byte_len(graphemes_of(leading_text(bytes)).take(k as int).flatten()) as int,
        ),
        m <= graphemes_of(trailing_text(rest)).len(),
        spans(
            segment.floating.last(),
            all_normalized(graphemes_of(trailing_text(rest))),
            graphemes_of(trailing_text(rest)).len() - m,
            graphemes_of(trailing_text(rest)).len() as int,
        ),
        mid == rest.take(
            rest.len() - byte_len(
                graphemes_of(trailing_text(rest)).skip(
                    graphemes_of(trailing_text(rest)).len() - m,
                ).flatten(),
            ),
        ),
        are_places(segment.floating.drop_last(), pieces_of(mid), places),
    ensures
        text_matches(segment, bytes),
{
    assert(is_split(segment, bytes, k, m));
    law_split(segment, bytes);
}

/// A name that matches starts with clusters that the base string matches and ends, in what is left, with
/// clusters that the last of the other strings matches, and there are places for the others between the
/// two, in order. If there are no other strings, nothing is left.
pub proof fn law_match_gaps(segment: SegmentView, bytes: Seq<u8>) -> (r: (nat, nat, Seq<Place>))
    requires
        are_clusters(segment, bytes),
        text_matches(segment, bytes),
    ensures
        ({
            let lead = graphemes_of(leading_text(bytes));
            let rest = bytes.skip(byte_len(lead.take(r.0 as int).flatten()) as int);
            let tail = graphemes_of(trailing_text(rest));
            let n = tail.len() as int;
            let mid = rest.take(rest.len() - byte_len(tail.skip(n - r.1).flatten()));
            &&& r.0 <= lead.len()
            &&& spans(segment.base, all_normalized(lead), 0, r.0 as int)
            &&& segment.floating.len() == 0 ==> rest.len() == 0
            &&& segment.floating.len() > 0 ==> r.1 <= n && spans(
                segment.floating.last(),
                all_normalized(tail),
                n - r.1,
                n,
            ) && are_places(segment.floating.drop_last(), pieces_of(mid), r.2)
        }),
{
    law_split(segment, bytes);
    let (k, m) = choose|k: nat, m: nat| #[trigger] is_split(segment, bytes, k, m);
    if segment.floating.len() == 0 {
        (k, m, seq![])
    } else {
        let lead = graphemes_of(leading_text(bytes));
        let rest = bytes.skip(byte_len(lead.take(k as int).flatten()) as int);
        let tail = graphemes_of(trailing_text(rest));
        let mid = rest.take(rest.len() - byte_len(tail.skip(tail.len() - m).flatten()));
        let places = choose|places: Seq<Place>| #[trigger]
            are_places(segment.floating.drop_last(), pieces_of(mid), places);
        (k, m, places)
    }
}

/// A name that is made of clusters that the base string matches, and of nothing else, matches a segment
/// without other strings.
pub proof fn law_base_match(segment: SegmentView, bytes: Seq<u8>, k: nat)
    requires
        are_clusters(segment, bytes),
        segment.floating.len() == 0,
        k <= graphemes_of(leading_text(bytes)).len(),
        spans(segment.base, all_normalized(graphemes_of(leading_text(bytes))), 0, k as int),
        byte_len(graphemes_of(leading_text(bytes)).take(k as int).flatten()) == bytes.len(),
    ensures
        text_matches(segment, bytes),
{
    assert(is_split(segment, bytes, k, 0));
    law_split(segment, bytes);
}

/// The text that a byte string starts with is the first of its pieces of valid text, and the others are
/// those behind it.
pub proof fn law_leading_text(bytes: Seq<u8>, i: int)
    requires
        0 <= i < utf8_chunks_of(bytes).len(),
    ensures
        leading_text(bytes) == utf8_chunks_of(bytes)[0].0,
        i > 0 ==> i - 1 < later_pieces(bytes).len() && later_pieces(bytes)[i - 1] == all_normalized(
            graphemes_of(utf8_chunks_of(bytes)[i].0),
        ),
        later_pieces(bytes).len() == utf8_chunks_of(bytes).len() - 1,
{
}

} // verus!
