//! Text as the characters that a reader sees.
use crate::ascii::{is_plain, lemma_same_reverse, same_text, same_texts, singles, smalls};
use crate::normal::{normalized, Normalized};
use crate::text::chars;
use unicode_segmentation::UnicodeSegmentation;
use vstd::prelude::*;
use vstd::utf8::*;

verus! {

/// The extended grapheme clusters of a text, in the order in which
/// `UnicodeSegmentation::graphemes` yields them.
pub uninterp spec fn graphemes_of(text: Seq<char>) -> Seq<Seq<char>>;

/// The extended grapheme clusters of a text, from the last to the first.
pub open spec fn rev_graphemes_of(text: Seq<char>) -> Seq<Seq<char>> {
    graphemes_of(text).reverse()
}

/// What each of a list of strings holds.
pub open spec fn str_views(v: Seq<&str>) -> Seq<Seq<char>> {
    v.map_values(|s: &str| s@)
}

/// `UnicodeSegmentation::graphemes` for extended clusters, collected with `next`. The clusters are
/// the text in order, and none is empty. All ASCII characters that are printed are of the same category,
/// so that the case of letters makes no difference to where a cluster ends, and each is a cluster of its
/// own where there are no others.
#[verifier::external_body]
fn graphemes<'t>(text: &'t str) -> (r: Vec<&'t str>)
    ensures
        str_views(r@) == graphemes_of(text@),
        str_views(r@).flatten() == text@,
        forall|i: int| 0 <= i < r@.len() ==> (#[trigger] r@[i])@.len() > 0,
        forall|t: Seq<char>|
            same_text(t, text@) ==> same_texts(#[trigger] graphemes_of(t), str_views(r@)),
        is_plain(text@) ==> str_views(r@) == singles(text@),
{
    text.graphemes(true).collect()
}

/// `UnicodeSegmentation::graphemes` for extended clusters, collected with `next_back`. It yields from
/// the end what `next` yields from the start: either way, whether a cluster ends at a place is decided
/// by what stands before it and the character behind it.
#[verifier::external_body]
fn rev_graphemes<'t>(text: &'t str) -> (r: Vec<&'t str>)
    ensures
        str_views(r@).reverse() == graphemes_of(text@),
        str_views(r@).reverse().flatten() == text@,
        forall|i: int| 0 <= i < r@.len() ==> (#[trigger] r@[i])@.len() > 0,
        forall|t: Seq<char>|
            same_text(t, text@) ==> same_texts(#[trigger] graphemes_of(t), str_views(r@).reverse()),
        is_plain(text@) ==> str_views(r@).reverse() == singles(text@),
{
    text.graphemes(true).rev().collect()
}

/// A grapheme cluster as matching sees it.
#[derive(Debug)]
pub struct Grapheme {
    /// The number of bytes that the cluster takes up.
    pub width: usize,
    /// The cluster's normalized form.
    pub folded: Normalized<Vec<char>>,
}

/// The normalized forms of a list of clusters.
pub open spec fn folds(g: Seq<Grapheme>) -> Seq<Seq<char>> {
    g.map_values(|x: Grapheme| x.folded.0@)
}

/// The normalized form of each of a list of clusters.
pub open spec fn all_normalized(clusters: Seq<Seq<char>>) -> Seq<Seq<char>> {
    clusters.map_values(|c: Seq<char>| normalized(c))
}

/// The number of bytes of a text in UTF-8.
pub open spec fn byte_len(text: Seq<char>) -> nat {
    encode_utf8(text).len()
}

/// `g` describes the grapheme clusters `clusters`.
pub open spec fn describes(g: Seq<Grapheme>, clusters: Seq<Seq<char>>) -> bool {
    &&& folds(g) == all_normalized(clusters)
    &&& forall|i: int| 0 <= i < g.len() ==> #[trigger] g[i].width == byte_len(clusters[i])
}

/// None of a list of texts is empty.
pub open spec fn none_empty(texts: Seq<Seq<char>>) -> bool {
    forall|i: int| 0 <= i < texts.len() ==> (#[trigger] texts[i]).len() > 0
}

/// Describes each of a list of clusters.
fn describe(clusters: &Vec<&str>) -> (r: Vec<Grapheme>)
    requires
        forall|i: int| 0 <= i < clusters@.len() ==> (#[trigger] clusters@[i])@.len() > 0,
    ensures
        describes(r@, str_views(clusters@)),
        none_empty(folds(r@)),
        forall|cs: Seq<Seq<char>>|
            same_texts(cs, str_views(clusters@)) ==> #[trigger] all_normalized(cs) == folds(r@),
        forall|i: int|
            0 <= i < clusters@.len() && is_plain((#[trigger] clusters@[i])@) ==> folds(r@)[i] == smalls(
                clusters@[i]@,
            ),
{
    let mut r: Vec<Grapheme> = Vec::new();
    let mut i: usize = 0;
    assert(folds(r@) =~= all_normalized(str_views(clusters@.take(0))));
    while i < clusters.len()
        invariant
            i <= clusters@.len(),
            forall|j: int| 0 <= j < clusters@.len() ==> (#[trigger] clusters@[j])@.len() > 0,
            describes(r@, str_views(clusters@.take(i as int))),
            r@.len() == i,
            forall|j: int| 0 <= j < i ==> (#[trigger] r@[j]).folded.0@.len() > 0,
            forall|j: int, t: Seq<char>|
                0 <= j < i && #[trigger] same_text(t, clusters@[j]@) ==> normalized(t)
                    == r@[j].folded.0@,
            forall|j: int|
                0 <= j < i && is_plain((#[trigger] clusters@[j])@) ==> r@[j].folded.0@ == smalls(
                    clusters@[j]@,
                ),
        decreases clusters@.len() - i,
    {
        let ghost before = r@;
        let cluster = clusters[i];
        let width = cluster.as_bytes().len();
        let text = chars(cluster);
        let folded = Normalized::normalize(text.as_slice());
        r.push(Grapheme { width, folded });
        proof {
            let now = str_views(clusters@.take(i + 1));
            let then = str_views(clusters@.take(i as int));
            assert(now =~= then.push(cluster@));
            assert(folds(r@) =~= folds(before).push(normalized(cluster@)));
            assert(all_normalized(now) =~= all_normalized(then).push(normalized(cluster@)));
        }
        i += 1;
    }
    proof {
        assert(clusters@.take(i as int) == clusters@);
        assert forall|j: int| 0 <= j < folds(r@).len() implies (#[trigger] folds(r@)[j]).len() > 0 by {
            assert(r@[j].folded.0@.len() > 0);
        }
        assert forall|cs: Seq<Seq<char>>|
            same_texts(cs, str_views(clusters@)) implies #[trigger] all_normalized(cs) == folds(r@) by {
            assert forall|j: int| 0 <= j < cs.len() implies #[trigger] all_normalized(cs)[j] == folds(
                r@,
            )[j] by {
                assert(same_text(cs[j], str_views(clusters@)[j]));
                assert(same_text(cs[j], clusters@[j]@));
            }
            assert(all_normalized(cs) =~= folds(r@));
        }
    }
    r
}

/// The grapheme clusters of `text`, from the first to the last.
pub fn split(text: &str) -> (r: Vec<Grapheme>)
    ensures
        describes(r@, graphemes_of(text@)),
        graphemes_of(text@).flatten() == text@,
        none_empty(folds(r@)),
        forall|t: Seq<char>|
            same_text(t, text@) ==> same_texts(#[trigger] graphemes_of(t), graphemes_of(text@))
                && all_normalized(graphemes_of(t)) == folds(r@),
        is_plain(text@) ==> graphemes_of(text@) == singles(text@) && folds(r@) == singles(
            smalls(text@),
        ),
{
    let clusters = graphemes(text);
    let r = describe(&clusters);
    proof {
        if is_plain(text@) {
            lemma_plain_folds(text@, str_views(clusters@), folds(r@));
        }
    }
    r
}

/// The normalized forms of the characters of a plain text are those of the text.
proof fn lemma_plain_folds(text: Seq<char>, clusters: Seq<Seq<char>>, folded: Seq<Seq<char>>)
    requires
        is_plain(text),
        clusters == singles(text),
        folded.len() == clusters.len(),
        forall|i: int| 0 <= i < clusters.len() && is_plain(clusters[i]) ==> #[trigger] folded[i] == smalls(
            clusters[i],
        ),
    ensures
        folded == singles(smalls(text)),
{
    assert forall|i: int| 0 <= i < folded.len() implies #[trigger] folded[i] == singles(
        smalls(text),
    )[i] by {
        assert(' ' <= text[i] <= '~');
        assert(clusters[i] =~= seq![text[i]]);
        assert(is_plain(clusters[i]));
        assert(smalls(clusters[i]) =~= seq![smalls(text)[i]]);
    }
    assert(folded =~= singles(smalls(text)));
}

/// The grapheme clusters of `text`, from the last to the first.
pub fn rev_split(text: &str) -> (r: Vec<Grapheme>)
    ensures
        describes(r@, rev_graphemes_of(text@)),
        folds(r@).reverse() == all_normalized(graphemes_of(text@)),
        rev_graphemes_of(text@).reverse().flatten() == text@,
        none_empty(folds(r@)),
        forall|t: Seq<char>|
            same_text(t, text@) ==> same_texts(#[trigger] rev_graphemes_of(t), rev_graphemes_of(text@))
                && all_normalized(rev_graphemes_of(t)) == folds(r@),
        is_plain(text@) ==> graphemes_of(text@) == singles(text@) && folds(r@).reverse() == singles(
            smalls(text@),
        ),
{
    let clusters = rev_graphemes(text);
    proof {
        let views = str_views(clusters@);
        assert(views.reverse().reverse() =~= views);
        assert(rev_graphemes_of(text@).reverse() =~= graphemes_of(text@));
        assert forall|t: Seq<char>| same_text(t, text@) implies same_texts(
            #[trigger] rev_graphemes_of(t),
            views,
        ) by {
            lemma_same_reverse(graphemes_of(t), views.reverse());
        }
    }
    let r = describe(&clusters);
    proof {
        assert(folds(r@).reverse() =~= all_normalized(graphemes_of(text@)));
        if is_plain(text@) {
            let views = str_views(clusters@);
            let n = views.len() as int;
            assert forall|i: int| 0 <= i < n && is_plain(views.reverse()[i]) implies #[trigger] folds(
                r@,
            ).reverse()[i] == smalls(views.reverse()[i]) by {
                assert(views.reverse()[i] == clusters@[n - 1 - i]@);
            }
            lemma_plain_folds(text@, views.reverse(), folds(r@).reverse());
        }
    }
    r
}

} // verus!
