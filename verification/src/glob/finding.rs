//! Looking for each string at the first place where it fits misses nothing.
use crate::glob::matching::found;
use crate::glob::pattern::{
    lemma_spelled_from, pattern_len, prefix_len, spelled_from, PatternView,
};
use vstd::prelude::*;

verus! {

/// What is left of a piece of text from a cluster on. The first piece is `cur`.
pub open spec fn rest_of(
    cur: Seq<Seq<char>>,
    pieces: Seq<Seq<Seq<char>>>,
    piece: int,
    from: int,
) -> Seq<Seq<char>> {
    if piece == 0 {
        cur.skip(from)
    } else {
        pieces[piece - 1].skip(from)
    }
}

/// The place is in one of the pieces of text.
pub open spec fn is_place(
    cur: Seq<Seq<char>>,
    pieces: Seq<Seq<Seq<char>>>,
    piece: int,
    from: int,
) -> bool {
    &&& 0 <= piece <= pieces.len()
    &&& 0 <= from <= (if piece == 0 {
        cur.len()
    } else {
        pieces[piece - 1].len()
    })
}

/// The strings can be placed in the pieces of text, in order and without overlap, each within one
/// piece.
pub open spec fn placed(
    strs: Seq<Seq<PatternView>>,
    cur: Seq<Seq<char>>,
    pieces: Seq<Seq<Seq<char>>>,
) -> bool
    decreases strs.len(),
{
    strs.len() == 0 || exists|piece: int, from: int|
        is_place(cur, pieces, piece, from) && {
            let rest = #[trigger] rest_of(cur, pieces, piece, from);
            prefix_len(strs[0], rest) matches Some(k) && placed(
                strs.skip(1),
                rest.skip(k as int),
                pieces.skip(piece),
            )
        }
}

/// The first of the strings is at the place, and the others behind it.
spec fn is_placed_at(
    strs: Seq<Seq<PatternView>>,
    cur: Seq<Seq<char>>,
    pieces: Seq<Seq<Seq<char>>>,
    piece: int,
    from: int,
) -> bool {
    let rest = rest_of(cur, pieces, piece, from);
    &&& is_place(cur, pieces, piece, from)
    &&& prefix_len(strs[0], rest) matches Some(k)
    &&& placed(strs.skip(1), rest.skip(k as int), pieces.skip(piece))
}

proof fn lemma_placed(
    strs: Seq<Seq<PatternView>>,
    cur: Seq<Seq<char>>,
    pieces: Seq<Seq<Seq<char>>>,
)
    requires
        strs.len() > 0,
    ensures
        placed(strs, cur, pieces) <==> exists|piece: int, from: int| #[trigger]
            is_placed_at(strs, cur, pieces, piece, from),
{
    if placed(strs, cur, pieces) {
        let (piece, from) = choose|piece: int, from: int|
            is_place(cur, pieces, piece, from) && {
                let rest = #[trigger] rest_of(cur, pieces, piece, from);
                prefix_len(strs[0], rest) matches Some(k) && placed(
                    strs.skip(1),
                    rest.skip(k as int),
                    pieces.skip(piece),
                )
            };
        assert(is_placed_at(strs, cur, pieces, piece, from));
    }
    if exists|piece: int, from: int| #[trigger] is_placed_at(strs, cur, pieces, piece, from) {
        let (piece, from) = choose|piece: int, from: int| #[trigger]
            is_placed_at(strs, cur, pieces, piece, from);
        assert(is_place(cur, pieces, piece, from));
        let rest = rest_of(cur, pieces, piece, from);
        assert(prefix_len(strs[0], rest) is Some);
    }
}

/// More text in front does no harm.
proof fn lemma_placed_longer(
    strs: Seq<Seq<PatternView>>,
    cur: Seq<Seq<char>>,
    pieces: Seq<Seq<Seq<char>>>,
    n: int,
)
    requires
        0 <= n <= cur.len(),
        placed(strs, cur.skip(n), pieces),
    ensures
        placed(strs, cur, pieces),
{
    if strs.len() > 0 {
        lemma_placed(strs, cur.skip(n), pieces);
        lemma_placed(strs, cur, pieces);
        let (piece, from) = choose|piece: int, from: int| #[trigger]
            is_placed_at(strs, cur.skip(n), pieces, piece, from);
        let at = if piece == 0 {
            from + n
        } else {
            from
        };
        assert(rest_of(cur, pieces, piece, at) =~= rest_of(cur.skip(n), pieces, piece, from));
        assert(is_placed_at(strs, cur, pieces, piece, at));
    }
}

/// More pieces in front do no harm.
proof fn lemma_placed_earlier(
    strs: Seq<Seq<PatternView>>,
    cur: Seq<Seq<char>>,
    pieces: Seq<Seq<Seq<char>>>,
    p: int,
    n: int,
)
    requires
        0 <= p < pieces.len(),
        0 <= n <= pieces[p].len(),
        placed(strs, pieces[p].skip(n), pieces.skip(p + 1)),
    ensures
        placed(strs, cur, pieces),
{
    if strs.len() > 0 {
        let inner = pieces[p].skip(n);
        let behind = pieces.skip(p + 1);
        lemma_placed(strs, inner, behind);
        lemma_placed(strs, cur, pieces);
        let (piece, from) = choose|piece: int, from: int| #[trigger]
            is_placed_at(strs, inner, behind, piece, from);
        let at = if piece == 0 {
            from + n
        } else {
            from
        };
        assert(rest_of(cur, pieces, p + 1 + piece, at) =~= rest_of(inner, behind, piece, from));
        assert(pieces.skip(p + 1 + piece) =~= behind.skip(piece));
        assert(is_placed_at(strs, cur, pieces, p + 1 + piece, at));
    }
}

proof fn lemma_flatten_three(text: Seq<Seq<char>>, i: int, j: int, k: int)
    requires
        0 <= i <= j <= k <= text.len(),
    ensures
        text.take(j).flatten() == text.take(i).flatten() + text.subrange(i, j).flatten(),
        text.take(k).flatten() == text.take(j).flatten() + text.subrange(j, k).flatten(),
{
    assert(text.take(j) =~= text.take(i) + text.subrange(i, j));
    vstd::seq_lib::lemma_flatten_concat(text.take(i), text.subrange(i, j));
    assert(text.take(k) =~= text.take(j) + text.subrange(j, k));
    vstd::seq_lib::lemma_flatten_concat(text.take(j), text.subrange(j, k));
}

/// What fits at an earlier place ends no later.
proof fn lemma_pattern_ends(pattern: PatternView, text: Seq<Seq<char>>, i: int)
    requires
        0 <= i <= text.len(),
        pattern_len(pattern, text) is Some,
        pattern_len(pattern, text.skip(i)) is Some,
    ensures
        pattern_len(pattern, text)->0 <= text.len(),
        pattern_len(pattern, text.skip(i))->0 <= text.len() - i,
        pattern_len(pattern, text)->0 <= i + pattern_len(pattern, text.skip(i))->0,
{
    if let PatternView::Lit(lit) = pattern {
        let later = text.skip(i);
        lemma_spelled_from(lit, text, 1);
        lemma_spelled_from(lit, later, 1);
        let a = spelled_from(lit, text, 1)->0 as int;
        let b = spelled_from(lit, later, 1)->0 as int;
        if a > i + b {
            lemma_flatten_three(text, i, i + b, a);
            assert(text.subrange(i, i + b) =~= later.take(b));
            let head = text.take(i).flatten();
            let tail = text.subrange(i + b, a).flatten();
            assert(lit == head + lit + tail);
            assert(head.len() == 0);
            assert(head + lit =~= lit);
            assert(text.take((i + b) as nat as int).flatten() == lit);
        }
    }
}

/// What fits at an earlier place ends no later.
proof fn lemma_prefix_ends(patterns: Seq<PatternView>, text: Seq<Seq<char>>, i: int)
    requires
        0 <= i <= text.len(),
        prefix_len(patterns, text) is Some,
        prefix_len(patterns, text.skip(i)) is Some,
    ensures
        prefix_len(patterns, text)->0 <= text.len(),
        prefix_len(patterns, text.skip(i))->0 <= text.len() - i,
        prefix_len(patterns, text)->0 <= i + prefix_len(patterns, text.skip(i))->0,
    decreases patterns.len(),
{
    if patterns.len() > 0 {
        let later = text.skip(i);
        lemma_pattern_ends(patterns[0], text, i);
        let a = pattern_len(patterns[0], text)->0 as int;
        let b = pattern_len(patterns[0], later)->0 as int;
        assert(later.skip(b) =~= text.skip(a).skip(i + b - a));
        lemma_prefix_ends(patterns.skip(1), text.skip(a), i + b - a);
    }
}

/// What fits at a place ends in the text.
proof fn lemma_prefix_ends_at(patterns: Seq<PatternView>, text: Seq<Seq<char>>)
    requires
        prefix_len(patterns, text) is Some,
    ensures
        prefix_len(patterns, text)->0 <= text.len(),
{
    assert(text.skip(0) =~= text);
    lemma_prefix_ends(patterns, text, 0);
}

/// A search that takes each string at the first place where it fits finds the strings exactly if they
/// can be placed at all.
pub proof fn law_first_fit(
    strs: Seq<Seq<PatternView>>,
    cur: Seq<Seq<char>>,
    pieces: Seq<Seq<Seq<char>>>,
)
    ensures
        found(strs, cur, pieces) <==> placed(strs, cur, pieces),
    decreases strs.len(), pieces.len(), cur.len(),
{
    if strs.len() > 0 {
        lemma_placed(strs, cur, pieces);
        assert(cur.skip(0) =~= cur);
        assert(pieces.skip(0) =~= pieces);
        match prefix_len(strs[0], cur) {
            Some(k) => {
                lemma_prefix_ends(strs[0], cur, 0);
                let rest = cur.skip(k as int);
                law_first_fit(strs.skip(1), rest, pieces);
                if placed(strs.skip(1), rest, pieces) {
                    assert(rest_of(cur, pieces, 0, 0) == cur);
                    assert(is_placed_at(strs, cur, pieces, 0, 0));
                }
                if placed(strs, cur, pieces) {
                    let (piece, from) = choose|piece: int, from: int| #[trigger]
                        is_placed_at(strs, cur, pieces, piece, from);
                    let at = rest_of(cur, pieces, piece, from);
                    let n = prefix_len(strs[0], at)->0 as int;
                    lemma_prefix_ends_at(strs[0], at);
                    if piece == 0 {
                        lemma_prefix_ends(strs[0], cur, from);
                        assert(at.skip(n) =~= rest.skip(from + n - k));
                        lemma_placed_longer(strs.skip(1), rest, pieces, from + n - k);
                    } else {
                        assert(at.skip(n) =~= pieces[piece - 1].skip(from + n));
                        lemma_placed_earlier(strs.skip(1), rest, pieces, piece - 1, from + n);
                    }
                }
            },
            None => {
                if cur.len() > 0 {
                    let rest = cur.skip(1);
                    law_first_fit(strs, rest, pieces);
                    if placed(strs, rest, pieces) {
                        lemma_placed_longer(strs, cur, pieces, 1);
                    }
                    if placed(strs, cur, pieces) {
                        lemma_placed(strs, rest, pieces);
                        let (piece, from) = choose|piece: int, from: int| #[trigger]
                            is_placed_at(strs, cur, pieces, piece, from);
                        let at = if piece == 0 {
                            from - 1
                        } else {
                            from
                        };
                        if piece == 0 {
                            assert(from > 0);
                        }
                        assert(rest_of(rest, pieces, piece, at) =~= rest_of(
                            cur,
                            pieces,
                            piece,
                            from,
                        ));
                        assert(is_placed_at(strs, rest, pieces, piece, at));
                    }
                } else if pieces.len() > 0 {
                    let next = pieces[0];
                    let behind = pieces.skip(1);
                    law_first_fit(strs, next, behind);
                    assert(next.skip(0) =~= next);
                    if placed(strs, next, behind) {
                        lemma_placed_earlier(strs, cur, pieces, 0, 0);
                    }
                    if placed(strs, cur, pieces) {
                        lemma_placed(strs, next, behind);
                        let (piece, from) = choose|piece: int, from: int| #[trigger]
                            is_placed_at(strs, cur, pieces, piece, from);
                        assert(piece > 0) by {
                            if piece == 0 {
                                assert(from == 0);
                                assert(rest_of(cur, pieces, 0, 0) == cur);
                            }
                        }
                        assert(rest_of(next, behind, piece - 1, from) =~= rest_of(
                            cur,
                            pieces,
                            piece,
                            from,
                        ));
                        assert(behind.skip(piece - 1) =~= pieces.skip(piece));
                        assert(is_placed_at(strs, next, behind, piece - 1, from));
                    }
                } else if placed(strs, cur, pieces) {
                    let (piece, from) = choose|piece: int, from: int| #[trigger]
                        is_placed_at(strs, cur, pieces, piece, from);
                    assert(rest_of(cur, pieces, 0, 0) == cur);
                }
            },
        }
    }
}

} // verus!
