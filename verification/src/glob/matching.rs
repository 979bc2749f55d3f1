//! Matching a file name, which may hold broken UTF-8, against a segment.
use crate::ascii::{
    is_plain, lemma_same_subrange, lemma_same_take, lemma_same_trailing, same_bytes, same_text,
    same_texts, singles, smalls,
};
use crate::glob::gaps::{law_split, lemma_pieces_of, pieces_of, splits};
use crate::glob::parse::any_name;
use crate::glob::pattern::{
    lemma_spelled_from, prefix_len, spelled_from, str_patterns, suffix_len, FixedStr, PatternView,
    Segment, SegmentView,
};
use crate::glob::plain::{lemma_plain, lemma_plain_bytes, lemma_single_bytes, matches_plain};
use crate::grapheme::{
    all_normalized, byte_len, describes, folds, graphemes_of, none_empty, rev_graphemes_of, rev_split,
    split, Grapheme,
};
use crate::utf8::{
    chunk_views, joined, lemma_valid_start_from, same_chunks, trailing_str, trailing_text, utf8_chunks,
    utf8_chunks_of, valid_start,
};
use vstd::prelude::*;
use vstd::slice::slice_subrange;
use vstd::utf8::*;

verus! {

/// The strings occur one after another, each at the first place where it fits: in what is left of
/// the current piece of text, `cur`, or in one of the pieces behind it. None spans two pieces.
pub open spec fn found(
    strs: Seq<Seq<PatternView>>,
    cur: Seq<Seq<char>>,
    pieces: Seq<Seq<Seq<char>>>,
) -> bool
    decreases strs.len(), pieces.len(), cur.len(),
{
    if strs.len() == 0 {
        true
    } else {
        match prefix_len(strs[0], cur) {
            Some(k) => found(strs.skip(1), cur.skip(k as int), pieces),
            None => if cur.len() > 0 {
                found(strs, cur.skip(1), pieces)
            } else if pieces.len() > 0 {
                found(strs, pieces[0], pieces.skip(1))
            } else {
                false
            },
        }
    }
}

/// The valid text that a byte string starts with.
pub open spec fn leading_text(bytes: Seq<u8>) -> Seq<char> {
    if utf8_chunks_of(bytes).len() > 0 {
        utf8_chunks_of(bytes)[0].0
    } else {
        seq![]
    }
}

/// The normalized clusters of each valid piece of a byte string behind the first.
pub open spec fn later_pieces(bytes: Seq<u8>) -> Seq<Seq<Seq<char>>> {
    if utf8_chunks_of(bytes).len() > 0 {
        utf8_chunks_of(bytes).skip(1).map_values(
            |c: (Seq<char>, Seq<u8>)| all_normalized(graphemes_of(c.0)),
        )
    } else {
        seq![]
    }
}

/// A byte string matches a segment if it starts with the base string, ends with the last floating
/// string, and has the other floating strings in between in order. A segment without floating
/// strings leaves nothing over.
pub open spec fn text_matches(segment: SegmentView, bytes: Seq<u8>) -> bool {
    let lead = graphemes_of(leading_text(bytes));
    match prefix_len(segment.base, all_normalized(lead)) {
        None => false,
        Some(k) => {
            let rest = bytes.skip(byte_len(lead.take(k as int).flatten()) as int);
            if segment.floating.len() == 0 {
                rest.len() == 0
            } else {
                let tail = rev_graphemes_of(trailing_text(rest));
                match suffix_len(segment.floating.last(), all_normalized(tail)) {
                    None => false,
                    Some(k) => {
                        let mid = rest.take(
                            rest.len() - byte_len(tail.take(k as int).reverse().flatten()),
                        );
                        found(
                            segment.floating.drop_last(),
                            all_normalized(graphemes_of(leading_text(mid))),
                            later_pieces(mid),
                        )
                    },
                }
            }
        },
    }
}

/// The normalized clusters of each of a list of pieces.
pub open spec fn piece_folds(pieces: Seq<Vec<Grapheme>>) -> Seq<Seq<Seq<char>>> {
    pieces.map_values(|p: Vec<Grapheme>| folds(p@))
}

/// Looks for the strings one after another, each at the first place where it fits. The search
/// starts in `first` and goes on in each of `pieces` in turn.
pub fn find_all(strs: &[FixedStr], first: &Vec<Grapheme>, pieces: &Vec<Vec<Grapheme>>) -> (r: bool)
    ensures
        r == found(str_patterns(strs@), folds(first@), piece_folds(pieces@)),
{
    let ghost patterns = str_patterns(strs@);
    let ghost all = piece_folds(pieces@);
    let mut i: usize = 0;
    let mut cur: &[Grapheme] = first.as_slice();
    let mut next: usize = 0;
    assert(patterns.skip(0) == patterns);
    assert(all.skip(0) == all);
    while i < strs.len()
        invariant
            patterns == str_patterns(strs@),
            all == piece_folds(pieces@),
            i <= strs@.len(),
            next <= pieces@.len(),
            found(patterns, folds(first@), all) == found(
                patterns.skip(i as int),
                folds(cur@),
                all.skip(next as int),
            ),
        decreases strs@.len() - i, pieces@.len() - next, cur@.len(),
    {
        let ghost left = patterns.skip(i as int);
        let ghost behind = all.skip(next as int);
        assert(left[0] == strs@[i as int]@);
        match strs[i].match_prefix(cur) {
            Some(k) => {
                let ghost before = folds(cur@);
                cur = slice_subrange(cur, k, cur.len());
                assert(folds(cur@) =~= before.skip(k as int));
                assert(left.skip(1) == patterns.skip(i + 1));
                i += 1;
            },
            None => {
                if cur.len() > 0 {
                    let ghost before = folds(cur@);
                    cur = slice_subrange(cur, 1, cur.len());
                    assert(folds(cur@) =~= before.skip(1));
                } else if next < pieces.len() {
                    cur = pieces[next].as_slice();
                    assert(folds(cur@) == behind[0]);
                    assert(behind.skip(1) == all.skip(next + 1));
                    next += 1;
                } else {
                    return false;
                }
            },
        }
    }
    true
}

/// Encoding goes character by character.
pub proof fn lemma_encode_concat(a: Seq<char>, b: Seq<char>)
    ensures
        encode_utf8(a + b) == encode_utf8(a) + encode_utf8(b),
    decreases a.len(),
{
    if a.len() == 0 {
        assert(a + b == b);
    } else {
        assert((a + b).drop_first() == a.drop_first() + b);
        lemma_encode_concat(a.drop_first(), b);
    }
}

/// The bytes of the first `k` of a text's clusters, one cluster more at a time.
proof fn lemma_width_step(clusters: Seq<Seq<char>>, k: int)
    requires
        0 <= k < clusters.len(),
    ensures
        byte_len(clusters.take(k + 1).flatten()) == byte_len(clusters.take(k).flatten()) + byte_len(
            clusters[k],
        ),
        byte_len(clusters.take(k + 1).reverse().flatten()) == byte_len(
            clusters.take(k).reverse().flatten(),
        ) + byte_len(clusters[k]),
{
    let one = seq![clusters[k]];
    one.lemma_flatten_one_element();
    assert(clusters.take(k + 1) == clusters.take(k) + one);
    vstd::seq_lib::lemma_flatten_concat(clusters.take(k), one);
    lemma_encode_concat(clusters.take(k).flatten(), clusters[k]);
    assert(clusters.take(k + 1).reverse() == one + clusters.take(k).reverse());
    vstd::seq_lib::lemma_flatten_concat(one, clusters.take(k).reverse());
    lemma_encode_concat(clusters[k], clusters.take(k).reverse().flatten());
}

/// The bytes of some of a text's clusters are no more than those of all.
proof fn lemma_width_bound(clusters: Seq<Seq<char>>, k: int)
    requires
        0 <= k <= clusters.len(),
    ensures
        byte_len(clusters.take(k).flatten()) <= byte_len(clusters.flatten()),
        byte_len(clusters.take(k).reverse().flatten()) <= byte_len(clusters.reverse().flatten()),
    decreases clusters.len() - k,
{
    if k < clusters.len() {
        lemma_width_step(clusters, k);
        lemma_width_bound(clusters, k + 1);
    } else {
        assert(clusters.take(k) == clusters);
    }
}

/// The bytes of the first `k` clusters.
fn width(graphemes: &Vec<Grapheme>, k: usize, Ghost(clusters): Ghost<Seq<Seq<char>>>) -> (w: usize)
    requires
        describes(graphemes@, clusters),
        k <= graphemes@.len(),
        byte_len(clusters.flatten()) <= usize::MAX || byte_len(clusters.reverse().flatten())
            <= usize::MAX,
    ensures
        w == byte_len(clusters.take(k as int).flatten()),
        w == byte_len(clusters.take(k as int).reverse().flatten()),
{
    let mut w: usize = 0;
    let mut i: usize = 0;
    proof {
        assert(graphemes@.len() == folds(graphemes@).len());
        assert(clusters.take(0) =~= Seq::<Seq<char>>::empty());
        assert(clusters.take(0).reverse() =~= Seq::<Seq<char>>::empty());
    }
    while i < k
        invariant
            i <= k <= graphemes@.len(),
            graphemes@.len() == clusters.len(),
            describes(graphemes@, clusters),
            byte_len(clusters.flatten()) <= usize::MAX || byte_len(clusters.reverse().flatten())
                <= usize::MAX,
            w == byte_len(clusters.take(i as int).flatten()),
            w == byte_len(clusters.take(i as int).reverse().flatten()),
        decreases k - i,
    {
        proof {
            lemma_width_step(clusters, i as int);
            lemma_width_bound(clusters, i + 1);
        }
        w += graphemes[i].width;
        i += 1;
    }
    w
}

/// The valid text that `bytes` starts with.
fn leading_str<'t>(bytes: &'t [u8]) -> (r: &'t str)
    ensures
        r@ == leading_text(bytes@),
        encode_utf8(r@).is_prefix_of(bytes@),
        valid_utf8(bytes@) ==> r@ == decode_utf8(bytes@),
        forall|b: Seq<u8>| same_bytes(b, bytes@) ==> same_text(#[trigger] leading_text(b), r@),
{
    let chunks = utf8_chunks(bytes);
    proof {
        let views = chunk_views(chunks@);
        assert(views.len() == chunks@.len());
        assert forall|b: Seq<u8>| same_bytes(b, bytes@) implies same_text(
            #[trigger] leading_text(b),
            leading_text(bytes@),
        ) by {
            assert(same_chunks(utf8_chunks_of(b), views));
            if views.len() > 0 {
                assert(same_text(utf8_chunks_of(b)[0].0, views[0].0));
            }
        }
    }
    if chunks.len() == 0 {
        proof {
            reveal_strlit("");
            assert(""@ == Seq::<char>::empty());
            assert(decode_utf8(bytes@) =~= Seq::<char>::empty());
        }
        ""
    } else {
        proof {
            let views = chunk_views(chunks@);
            assert(views[0].0 == chunks@[0].0@);
            assert(views[0].1 == chunks@[0].1@);
            let text = encode_utf8(views[0].0);
            assert(bytes@ == text + views[0].1 + joined(views.drop_first()));
            assert(text =~= bytes@.take(text.len() as int));
            if valid_utf8(bytes@) {
                assert(views.drop_first() =~= seq![]);
                assert(bytes@ =~= text);
                encode_utf8_decode_utf8(views[0].0);
            }
        }
        chunks[0].0
    }
}

/// The clusters of each valid piece of `bytes` behind the first.
fn later_graphemes(bytes: &[u8]) -> (r: Vec<Vec<Grapheme>>)
    ensures
        piece_folds(r@) == later_pieces(bytes@),
        forall|b: Seq<u8>| same_bytes(b, bytes@) ==> #[trigger] later_pieces(b) == piece_folds(r@),
        forall|i: int| 0 <= i < r@.len() ==> none_empty(#[trigger] piece_folds(r@)[i]),
        valid_utf8(bytes@) ==> r@.len() == 0,
{
    let chunks = utf8_chunks(bytes);
    let ghost views = chunk_views(chunks@);
    let mut r: Vec<Vec<Grapheme>> = Vec::new();
    if chunks.len() == 0 {
        proof {
            assert(views.len() == 0);
            assert(piece_folds(r@) =~= later_pieces(bytes@));
            assert forall|b: Seq<u8>| same_bytes(b, bytes@) implies #[trigger] later_pieces(b)
                == piece_folds(r@) by {
                assert(same_chunks(utf8_chunks_of(b), views));
            }
        }
        return r;
    }
    let mut i: usize = 1;
    while i < chunks.len()
        invariant
            views == chunk_views(chunks@),
            views == utf8_chunks_of(bytes@),
            1 <= i <= chunks@.len(),
            r@.len() == i - 1,
            forall|j: int|
                0 <= j < r@.len() ==> #[trigger] folds(r@[j]@) == all_normalized(
                    graphemes_of(views[j + 1].0),
                ),
            forall|j: int, t: Seq<char>|
                0 <= j < r@.len() && #[trigger] same_text(t, views[j + 1].0) ==> all_normalized(
                    graphemes_of(t),
                ) == folds(r@[j]@),
            forall|j: int| 0 <= j < r@.len() ==> none_empty(#[trigger] folds(r@[j]@)),
        decreases chunks@.len() - i,
    {
        assert(views[i as int].0 == chunks@[i as int].0@);
        let ghost before = r@;
        let piece = split(chunks[i].0);
        r.push(piece);
        proof {
            assert forall|j: int, t: Seq<char>|
                0 <= j < r@.len() && #[trigger] same_text(t, views[j + 1].0) implies all_normalized(
                graphemes_of(t),
            ) == folds(r@[j]@) by {
                if j < before.len() {
                    assert(r@[j] == before[j]);
                }
            }
        }
        i += 1;
    }
    proof {
        assert(piece_folds(r@) =~= later_pieces(bytes@));
        assert forall|j: int| 0 <= j < r@.len() implies none_empty(#[trigger] piece_folds(r@)[j]) by {
            assert(piece_folds(r@)[j] == folds(r@[j]@));
        }
        if valid_utf8(bytes@) && r@.len() > 0 {
            assert(chunks@[0].1@.len() > 0);
        }
        assert forall|b: Seq<u8>| same_bytes(b, bytes@) implies #[trigger] later_pieces(b)
            == piece_folds(r@) by {
            let other = utf8_chunks_of(b);
            assert(same_chunks(other, views));
            assert forall|j: int| 0 <= j < r@.len() implies #[trigger] later_pieces(b)[j] == piece_folds(
                r@,
            )[j] by {
                assert(same_text(other[j + 1].0, views[j + 1].0));
            }
            assert(later_pieces(b) =~= piece_folds(r@));
        }
    }
    r
}

/// A text matches patterns as a whole.
pub open spec fn whole_matches(patterns: Seq<PatternView>, text: Seq<char>) -> bool {
    let clusters = graphemes_of(text);
    prefix_len(patterns, all_normalized(clusters)) matches Some(k) && clusters.take(
        k as int,
    ).flatten() == text
}

/// Characters take up bytes.
proof fn lemma_no_bytes(text: Seq<char>)
    ensures
        byte_len(text) == 0 <==> text.len() == 0,
{
    if text.len() > 0 {
        encode_utf8_first_scalar(text);
    }
}

/// Clusters that take up all the bytes of a text are all of the text.
proof fn lemma_whole(clusters: Seq<Seq<char>>, k: int)
    requires
        0 <= k <= clusters.len(),
        byte_len(clusters.take(k).flatten()) == byte_len(clusters.flatten()),
    ensures
        clusters.take(k).flatten() == clusters.flatten(),
{
    let done = clusters.take(k).flatten();
    let rest = clusters.skip(k).flatten();
    assert(clusters == clusters.take(k) + clusters.skip(k));
    vstd::seq_lib::lemma_flatten_concat(clusters.take(k), clusters.skip(k));
    lemma_encode_concat(done, rest);
    lemma_no_bytes(rest);
    assert(done + rest =~= done);
}

/// The segment `*` matches every name, whatever bytes it is made of.
pub proof fn law_any_name(bytes: Seq<u8>)
    ensures
        text_matches(any_name(), bytes),
{
    let segment = any_name();
    let lead = graphemes_of(leading_text(bytes));
    assert(lead.take(0) =~= seq![]);
    assert(lead.take(0).flatten() =~= seq![]);
    let rest = bytes.skip(0);
    let tail = rev_graphemes_of(trailing_text(rest));
    assert(tail.take(0).reverse() =~= seq![]);
    assert(tail.take(0).reverse().flatten() =~= seq![]);
    assert(segment.floating.last() == Seq::<PatternView>::empty());
    assert(segment.floating.drop_last().len() == 0);
}

/// A text that matches a literal is spelled, in normalized form, exactly as the literal is. So all
/// texts that match a literal are the same but for case and compatibility variants.
pub proof fn law_literal(lit: Seq<char>, text: Seq<char>)
    requires
        whole_matches(seq![PatternView::Lit(lit)], text),
    ensures
        exists|k: int|
            0 <= k <= graphemes_of(text).len() && #[trigger] graphemes_of(text).take(k).flatten()
                == text && all_normalized(graphemes_of(text).take(k)).flatten() == lit,
{
    let clusters = graphemes_of(text);
    let folded = all_normalized(clusters);
    let patterns = seq![PatternView::Lit(lit)];
    let k = spelled_from(lit, folded, 1)->0;
    lemma_spelled_from(lit, folded, 1);
    assert(prefix_len(patterns.skip(1), folded.skip(k as int)) == Some(0nat));
    assert(prefix_len(patterns, folded) == Some(k));
    assert(all_normalized(clusters.take(k as int)) =~= folded.take(k as int));
    assert(clusters.take(k as int).flatten() == text);
}

/// The base string takes that many bytes off the start.
spec fn is_base(segment: SegmentView, bytes: Seq<u8>, at: int) -> bool {
    let lead = graphemes_of(leading_text(bytes));
    &&& prefix_len(segment.base, all_normalized(lead)) matches Some(k)
    &&& byte_len(lead.take(k as int).flatten()) == at
}

/// The last floating string takes that many bytes off the end.
spec fn is_tail(segment: SegmentView, rest: Seq<u8>, wide: int) -> bool {
    let tail = rev_graphemes_of(trailing_text(rest));
    &&& suffix_len(segment.floating.last(), all_normalized(tail)) matches Some(k)
    &&& byte_len(tail.take(k as int).reverse().flatten()) == wide
}

impl Segment {
    /// Whether a file name matches the segment: whether it can be split up into what the segment is made
    /// of, with gaps of any length. One without `*` only matches text. The case of ASCII letters makes no
    /// difference.
    #[verifier::rlimit(60)]
    pub fn match_text(&self, text: &[u8]) -> (r: bool)
        ensures
            r == text_matches(self@, text@),
            self@.floating.len() == 0 ==> r == (valid_utf8(text@) && whole_matches(
                self@.base,
                decode_utf8(text@),
            )),
            forall|u: Seq<u8>| #[trigger] same_bytes(u, text@) ==> r == text_matches(self@, u),
            r == splits(self@, text@),
            valid_utf8(text@) && is_plain(decode_utf8(text@)) ==> r == matches_plain(
                self@,
                smalls(decode_utf8(text@)),
            ),
    {
        let ghost name = decode_utf8(text@);
        let ghost plain = valid_utf8(text@) && is_plain(name);
        let len = text.len();
        let chunk = leading_str(text);
        let graphemes = split(chunk);
        let ghost lead = graphemes_of(chunk@);
        proof {
            encode_utf8_valid_utf8(chunk@);
            encode_utf8_decode_utf8(chunk@);
            if valid_utf8(text@) {
                decode_utf8_encode_utf8(text@);
            }
            if plain {
                lemma_plain_bytes(name, 0, 0);
            }
        }
        let rest = match self.base_str.match_prefix(graphemes.as_slice()) {
            None => {
                proof {
                    assert forall|u: Seq<u8>| #[trigger] same_bytes(u, text@) implies !text_matches(
                        self@,
                        u,
                    ) by {
                        assert(same_text(leading_text(u), chunk@));
                        assert(all_normalized(graphemes_of(leading_text(u))) == folds(graphemes@));
                    }
                    law_split(self@, text@);
                    if plain {
                        lemma_plain(self@, text@, name);
                    }
                }
                return false;
            },
            Some(k) => {
                let at = width(&graphemes, k, Ghost(lead));
                proof {
                    assert(graphemes@.len() == folds(graphemes@).len());
                    lemma_width_bound(lead, k as int);
                    if at == len {
                        assert(encode_utf8(chunk@) =~= text@);
                        lemma_whole(lead, k as int);
                    }
                }
                let rest = slice_subrange(text, at, len);
                proof {
                    assert forall|u: Seq<u8>| #[trigger] same_bytes(u, text@) implies is_base(
                        self@,
                        u,
                        at as int,
                    ) && same_bytes(u.skip(at as int), rest@) by {
                        let other = graphemes_of(leading_text(u));
                        assert(same_text(leading_text(u), chunk@));
                        assert(all_normalized(other) == folds(graphemes@));
                        assert(same_texts(other, lead));
                        lemma_same_take(other, lead, k as int);
                        lemma_same_subrange(u, text@, at as int, len as int);
                        assert(u.skip(at as int) == u.subrange(at as int, len as int));
                    }
                    assert(is_base(self@, text@, at as int));
                    if plain {
                        lemma_single_bytes(name, 0, k as int);
                        assert(lead.take(k as int) =~= lead.subrange(0, k as int));
                        assert(at == k);
                    }
                }
                rest
            },
        };
        let ghost at = len - rest@.len();
        let n = self.floating_strs.len();
        if n == 0 {
            assert forall|u: Seq<u8>| #[trigger] same_bytes(u, text@) implies (rest@.len() == 0)
                == text_matches(self@, u) by {
                assert(is_base(self@, u, at));
            }
            proof {
                law_split(self@, text@);
                if plain {
                    lemma_plain(self@, text@, name);
                }
            }
            return rest.len() == 0;
        }
        let chunk = trailing_str(rest);
        let graphemes = rev_split(chunk);
        let ghost tail = rev_graphemes_of(chunk@);
        let ghost later = name.skip(at);
        proof {
            let front = all_normalized(graphemes_of(chunk@));
            assert(front.reverse() =~= folds(graphemes@));
            assert forall|i: int| 0 <= i < front.len() implies (#[trigger] front[i]).len() > 0 by {
                assert(folds(graphemes@)[front.len() - 1 - i] == front[i]);
            }
            assert(is_base(self@, text@, at));
            if plain {
                lemma_plain_bytes(name, at, len as int);
                assert(later =~= name.subrange(at, len as int));
                assert(rest@ =~= encode_utf8(later));
                encode_utf8_valid_utf8(later);
                encode_utf8_decode_utf8(later);
                assert(rest@.skip(0) =~= rest@);
                assert(chunk@ == later);
                assert(front == singles(smalls(later)));
            }
        }
        proof {
            lemma_valid_start_from(rest@, 0);
            decode_utf8_encode_utf8(rest@.skip(valid_start(rest@)));
            assert(self@.floating.last() == self.floating_strs@[n - 1]@);
        }
        let mid = match self.floating_strs[n - 1].match_suffix(graphemes.as_slice()) {
            None => {
                proof {
                    assert forall|u: Seq<u8>| #[trigger] same_bytes(u, text@) implies !text_matches(
                        self@,
                        u,
                    ) by {
                        let other = u.skip(at);
                        assert(is_base(self@, u, at));
                        lemma_same_trailing(other, rest@);
                        assert(all_normalized(rev_graphemes_of(trailing_text(other))) == folds(
                            graphemes@,
                        ));
                    }
                    law_split(self@, text@);
                    if plain {
                        lemma_plain(self@, text@, name);
                    }
                }
                return false;
            },
            Some(k) => {
                let wide = width(&graphemes, k, Ghost(tail));
                proof {
                    assert(graphemes@.len() == folds(graphemes@).len());
                    lemma_width_bound(tail, k as int);
                }
                let mid = slice_subrange(rest, 0, rest.len() - wide);
                proof {
                    assert forall|u: Seq<u8>| #[trigger] same_bytes(u, text@) implies is_tail(
                        self@,
                        u.skip(at),
                        wide as int,
                    ) && same_bytes(u.skip(at).take(mid@.len() as int), mid@) by {
                        let other = u.skip(at);
                        assert(is_base(self@, u, at));
                        lemma_same_trailing(other, rest@);
                        let clusters = rev_graphemes_of(trailing_text(other));
                        assert(all_normalized(clusters) == folds(graphemes@));
                        assert(same_texts(clusters, tail));
                        lemma_same_take(clusters, tail, k as int);
                        lemma_same_subrange(other, rest@, 0, mid@.len() as int);
                        assert(other.take(mid@.len() as int) == other.subrange(0, mid@.len() as int));
                    }
                    assert(mid@.len() == rest@.len() - wide);
                }
                mid
            },
        };
        let strs = slice_subrange(self.floating_strs.as_slice(), 0, n - 1);
        let first = split(leading_str(mid));
        let pieces = later_graphemes(mid);
        assert(str_patterns(strs@) =~= self@.floating.drop_last());
        let r = find_all(strs, &first, &pieces);
        proof {
            assert forall|u: Seq<u8>| #[trigger] same_bytes(u, text@) implies r == text_matches(
                self@,
                u,
            ) by {
                let rest = u.skip(at);
                let other = rest.take(mid@.len() as int);
                assert(is_base(self@, u, at));
                assert(same_text(leading_text(other), leading_text(mid@)));
                assert(all_normalized(graphemes_of(leading_text(other))) == folds(first@));
                assert(later_pieces(other) == piece_folds(pieces@));
                let wide = rest.len() - mid@.len();
                assert(is_tail(self@, rest, wide));
            }
            let wide = rest@.len() - mid@.len();
            assert(is_tail(self@, rest@, wide));
            lemma_pieces_of(mid@);
            let all = pieces_of(mid@);
            assert forall|i: int| 0 <= i < all.len() implies none_empty(#[trigger] all[i]) by {
                if i > 0 {
                    assert(all[i] == piece_folds(pieces@)[i - 1]);
                }
            }
            law_split(self@, text@);
            if plain {
                let end = len - wide;
                lemma_plain_bytes(name, at, end);
                let middle = name.subrange(at, end);
                assert(mid@ =~= text@.subrange(at, end));
                encode_utf8_valid_utf8(middle);
                encode_utf8_decode_utf8(middle);
                assert(all =~= seq![singles(smalls(middle))]);
                let m = suffix_len(self@.floating.last(), folds(graphemes@))->0;
                lemma_single_bytes(later, later.len() - m, later.len() as int);
                assert(tail.take(m as int).reverse() =~= singles(later).subrange(
                    later.len() - m,
                    later.len() as int,
                ));
                lemma_plain(self@, text@, name);
            }
        }
        r
    }
}

} // verus!
