//! Patterns that match a text as a whole do so from either end.
use crate::glob::pattern::{
    lemma_rev_spelled_from, lemma_spelled_from, pattern_len, prefix_len, rev_pattern_len, suffix_len,
    PatternView,
};
use crate::grapheme::none_empty;
use vstd::prelude::*;

verus! {

/// The pattern matches the clusters as a whole.
pub open spec fn fits(pattern: PatternView, text: Seq<Seq<char>>) -> bool {
    match pattern {
        PatternView::Lit(lit) => text.len() >= 1 && text.flatten() == lit,
        PatternView::AnyGraphemes(n) => text.len() == n,
    }
}

/// The places cut the clusters between the first and the last of them into one part for each pattern.
pub open spec fn is_cut(patterns: Seq<PatternView>, text: Seq<Seq<char>>, cuts: Seq<int>) -> bool {
    &&& cuts.len() == patterns.len() + 1
    &&& forall|i: int, j: int|
        0 <= i <= j < cuts.len() ==> 0 <= #[trigger] cuts[i] <= #[trigger] cuts[j] <= text.len()
    &&& forall|i: int|
        0 <= i < patterns.len() ==> fits(
            #[trigger] patterns[i],
            text.subrange(cuts[i], cuts[i + 1]),
        )
}

/// Clusters that are not empty spell more the more there are of them.
proof fn lemma_longer(text: Seq<Seq<char>>, i: int, j: int)
    requires
        none_empty(text),
        0 <= i < j <= text.len(),
    ensures
        text.take(i).flatten().len() < text.take(j).flatten().len(),
        text.take(i).reverse().flatten().len() < text.take(j).reverse().flatten().len(),
    decreases j - i,
{
    let last = seq![text[j - 1]];
    last.lemma_flatten_one_element();
    assert(text[j - 1].len() > 0);
    assert(text.take(j) =~= text.take(j - 1) + last);
    vstd::seq_lib::lemma_flatten_concat(text.take(j - 1), last);
    assert(text.take(j).reverse() =~= last + text.take(j - 1).reverse());
    vstd::seq_lib::lemma_flatten_concat(last, text.take(j - 1).reverse());
    if i < j - 1 {
        lemma_longer(text, i, j - 1);
    }
}

/// A pattern that matches some clusters at the start takes these and no others.
proof fn lemma_fits_front(pattern: PatternView, text: Seq<Seq<char>>, k: int)
    requires
        none_empty(text),
        0 <= k <= text.len(),
        fits(pattern, text.take(k)),
    ensures
        pattern_len(pattern, text) == Some(k as nat),
{
    if let PatternView::Lit(lit) = pattern {
        lemma_spelled_from(lit, text, 1);
        let n = pattern_len(pattern, text);
        assert(text.take((k as nat) as int).flatten() == lit);
        if let Some(n) = n {
            if n < k {
                lemma_longer(text, n as int, k);
            }
        }
    }
}

/// A pattern that matches some clusters at the end takes these and no others.
proof fn lemma_fits_back(pattern: PatternView, rev: Seq<Seq<char>>, k: int)
    requires
        none_empty(rev),
        0 <= k <= rev.len(),
        fits(pattern, rev.take(k).reverse()),
    ensures
        rev_pattern_len(pattern, rev) == Some(k as nat),
{
    if let PatternView::Lit(lit) = pattern {
        lemma_rev_spelled_from(lit, rev, 1);
        let n = rev_pattern_len(pattern, rev);
        assert(rev.take((k as nat) as int).reverse().flatten() == lit);
        if let Some(n) = n {
            if n < k {
                lemma_longer(rev, n as int, k);
            }
        }
    }
}

/// What is between two of the places is not empty either.
proof fn lemma_cut_part(text: Seq<Seq<char>>, a: int, b: int)
    requires
        none_empty(text),
        0 <= a <= b <= text.len(),
    ensures
        none_empty(text.subrange(a, b)),
        none_empty(text.subrange(a, b).reverse()),
{
    let part = text.subrange(a, b);
    assert forall|i: int| 0 <= i < part.len() implies (#[trigger] part[i]).len() > 0 by {
        assert(text[a + i] == part[i]);
    }
    assert forall|i: int| 0 <= i < part.reverse().len() implies (#[trigger] part.reverse()[i]).len()
        > 0 by {
        assert(part[part.len() - 1 - i] == part.reverse()[i]);
    }
}

proof fn lemma_cut_front(patterns: Seq<PatternView>, text: Seq<Seq<char>>, cuts: Seq<int>)
    requires
        none_empty(text),
        is_cut(patterns, text, cuts),
    ensures
        prefix_len(patterns, text.subrange(cuts[0], cuts.last())) == Some(
            (cuts.last() - cuts[0]) as nat,
        ),
    decreases patterns.len(),
{
    let a = cuts[0];
    let b = cuts.last();
    let part = text.subrange(a, b);
    if patterns.len() > 0 {
        let rest = patterns.skip(1);
        let more = cuts.skip(1);
        assert(cuts[0] <= cuts[1] <= cuts[cuts.len() - 1]);
        let k = cuts[1] - a;
        lemma_cut_part(text, a, b);
        assert(part.take(k) =~= text.subrange(cuts[0], cuts[1]));
        assert(fits(patterns[0], part.take(k)));
        lemma_fits_front(patterns[0], part, k);
        assert forall|i: int| 0 <= i < rest.len() implies fits(
            #[trigger] rest[i],
            text.subrange(more[i], more[i + 1]),
        ) by {
            assert(rest[i] == patterns[i + 1]);
        }
        lemma_cut_front(rest, text, more);
        assert(part.skip(k) =~= text.subrange(more[0], more.last()));
    }
}

proof fn lemma_cut_back(patterns: Seq<PatternView>, text: Seq<Seq<char>>, cuts: Seq<int>)
    requires
        none_empty(text),
        is_cut(patterns, text, cuts),
    ensures
        suffix_len(patterns, text.subrange(cuts[0], cuts.last()).reverse()) == Some(
            (cuts.last() - cuts[0]) as nat,
        ),
    decreases patterns.len(),
{
    let a = cuts[0];
    let b = cuts.last();
    let rev = text.subrange(a, b).reverse();
    if patterns.len() > 0 {
        let m = patterns.len() - 1;
        let rest = patterns.drop_last();
        let more = cuts.drop_last();
        assert(cuts[0] <= cuts[m] <= cuts[m + 1]);
        assert(cuts[m + 1] == b);
        let k = b - cuts[m];
        lemma_cut_part(text, a, b);
        assert(rev.take(k).reverse() =~= text.subrange(cuts[m], cuts[m + 1]));
        assert(fits(patterns[m], rev.take(k).reverse()));
        lemma_fits_back(patterns[m], rev, k);
        assert forall|i: int| 0 <= i < rest.len() implies fits(
            #[trigger] rest[i],
            text.subrange(more[i], more[i + 1]),
        ) by {
            assert(rest[i] == patterns[i]);
        }
        lemma_cut_back(rest, text, more);
        assert(more.last() == cuts[m]);
        assert(rev.skip(k) =~= text.subrange(more[0], more.last()).reverse());
    }
}

/// Where the patterns end that match all of the clusters from a place on.
proof fn lemma_front_cut(patterns: Seq<PatternView>, text: Seq<Seq<char>>, a: int) -> (cuts: Seq<int>)
    requires
        0 <= a <= text.len(),
        prefix_len(patterns, text.skip(a)) == Some((text.len() - a) as nat),
    ensures
        is_cut(patterns, text, cuts),
        cuts[0] == a,
        cuts.last() == text.len(),
    decreases patterns.len(),
{
    if patterns.len() == 0 {
        seq![a]
    } else {
        let part = text.skip(a);
        let k = pattern_len(patterns[0], part)->0 as int;
        if let PatternView::Lit(lit) = patterns[0] {
            lemma_spelled_from(lit, part, 1);
        }
        assert(part.skip(k) =~= text.skip(a + k));
        let rest = patterns.skip(1);
        let more = lemma_front_cut(rest, text, a + k);
        let cuts = seq![a] + more;
        assert(part.take(k) =~= text.subrange(a, a + k));
        assert forall|i: int| 0 <= i < patterns.len() implies fits(
            #[trigger] patterns[i],
            text.subrange(cuts[i], cuts[i + 1]),
        ) by {
            if i > 0 {
                assert(rest[i - 1] == patterns[i]);
                assert(cuts[i] == more[i - 1] && cuts[i + 1] == more[i - 1 + 1]);
            }
        }
        assert forall|i: int, j: int| 0 <= i <= j < cuts.len() implies 0 <= #[trigger] cuts[i]
            <= #[trigger] cuts[j] <= text.len() by {
            if j > 0 {
                assert(cuts[j] == more[j - 1]);
                assert(more[0] <= more[j - 1]);
                if i > 0 {
                    assert(cuts[i] == more[i - 1]);
                }
            }
        }
        cuts
    }
}

/// Where the patterns end that match all of the clusters up to a place.
proof fn lemma_back_cut(patterns: Seq<PatternView>, text: Seq<Seq<char>>, b: int) -> (cuts: Seq<int>)
    requires
        0 <= b <= text.len(),
        suffix_len(patterns, text.take(b).reverse()) == Some(b as nat),
    ensures
        is_cut(patterns, text, cuts),
        cuts[0] == 0,
        cuts.last() == b,
    decreases patterns.len(),
{
    if patterns.len() == 0 {
        seq![b]
    } else {
        let rev = text.take(b).reverse();
        let m = patterns.len() - 1;
        let k = rev_pattern_len(patterns[m], rev)->0 as int;
        if let PatternView::Lit(lit) = patterns[m] {
            lemma_rev_spelled_from(lit, rev, 1);
        }
        assert(rev.skip(k) =~= text.take(b - k).reverse());
        let rest = patterns.drop_last();
        let more = lemma_back_cut(rest, text, b - k);
        let cuts = more.push(b);
        assert(rev.take(k).reverse() =~= text.subrange(b - k, b));
        assert forall|i: int| 0 <= i < patterns.len() implies fits(
            #[trigger] patterns[i],
            text.subrange(cuts[i], cuts[i + 1]),
        ) by {
            if i < m {
                assert(rest[i] == patterns[i]);
                assert(cuts[i] == more[i] && cuts[i + 1] == more[i + 1]);
            } else {
                assert(cuts[m] == more.last());
            }
        }
        assert forall|i: int, j: int| 0 <= i <= j < cuts.len() implies 0 <= #[trigger] cuts[i]
            <= #[trigger] cuts[j] <= text.len() by {
            if i < more.len() {
                assert(cuts[i] == more[i]);
                assert(more[i] <= more[more.len() - 1]);
                if j < more.len() {
                    assert(cuts[j] == more[j]);
                }
            }
        }
        cuts
    }
}

/// Patterns match all clusters of a text from its end exactly if they do from its start. None of the
/// clusters may be empty, as none is that a text is split into.
pub proof fn law_either_end(patterns: Seq<PatternView>, text: Seq<Seq<char>>)
    requires
        none_empty(text),
    ensures
        suffix_len(patterns, text.reverse()) == Some(text.len()) <==> prefix_len(patterns, text) == Some(
            text.len(),
        ),
{
    let n = text.len() as int;
    assert(text.skip(0) =~= text);
    assert(text.take(n) =~= text);
    assert(text.subrange(0, n) =~= text);
    if prefix_len(patterns, text) == Some(text.len()) {
        let cuts = lemma_front_cut(patterns, text, 0);
        lemma_cut_back(patterns, text, cuts);
    }
    if suffix_len(patterns, text.reverse()) == Some(text.len()) {
        let cuts = lemma_back_cut(patterns, text, n);
        lemma_cut_front(patterns, text, cuts);
    }
}

/// The patterns match the clusters from one place to another as a whole.
pub open spec fn spans(patterns: Seq<PatternView>, text: Seq<Seq<char>>, a: int, b: int) -> bool {
    exists|cuts: Seq<int>| #[trigger]
        is_cut(patterns, text, cuts) && cuts[0] == a && cuts.last() == b
}

/// Patterns that are cut out of some clusters match from the first place on.
proof fn lemma_cut_prefix(patterns: Seq<PatternView>, text: Seq<Seq<char>>, cuts: Seq<int>)
    requires
        none_empty(text),
        is_cut(patterns, text, cuts),
    ensures
        prefix_len(patterns, text.skip(cuts[0])) == Some((cuts.last() - cuts[0]) as nat),
    decreases patterns.len(),
{
    let a = cuts[0];
    assert(cuts[0] <= cuts[cuts.len() - 1]);
    let part = text.skip(a);
    if patterns.len() > 0 {
        let rest = patterns.skip(1);
        let more = cuts.skip(1);
        assert(cuts[0] <= cuts[1] <= cuts[cuts.len() - 1]);
        let k = cuts[1] - a;
        lemma_cut_part(text, a, text.len() as int);
        assert(part =~= text.subrange(a, text.len() as int));
        assert(part.take(k) =~= text.subrange(cuts[0], cuts[1]));
        assert(fits(patterns[0], part.take(k)));
        lemma_fits_front(patterns[0], part, k);
        assert forall|i: int| 0 <= i < rest.len() implies fits(
            #[trigger] rest[i],
            text.subrange(more[i], more[i + 1]),
        ) by {
            assert(rest[i] == patterns[i + 1]);
        }
        lemma_cut_prefix(rest, text, more);
        assert(part.skip(k) =~= text.skip(more[0]));
    }
}

/// Patterns that are cut out of some clusters match from the last place back.
proof fn lemma_cut_suffix(patterns: Seq<PatternView>, text: Seq<Seq<char>>, cuts: Seq<int>)
    requires
        none_empty(text),
        is_cut(patterns, text, cuts),
    ensures
        suffix_len(patterns, text.take(cuts.last()).reverse()) == Some(
            (cuts.last() - cuts[0]) as nat,
        ),
    decreases patterns.len(),
{
    let b = cuts.last();
    assert(cuts[0] <= cuts[cuts.len() - 1]);
    let rev = text.take(b).reverse();
    if patterns.len() > 0 {
        let m = patterns.len() - 1;
        let rest = patterns.drop_last();
        let more = cuts.drop_last();
        assert(cuts[0] <= cuts[m] <= cuts[m + 1]);
        assert(cuts[m + 1] == b);
        let k = b - cuts[m];
        lemma_cut_part(text, 0, b);
        assert(text.take(b) =~= text.subrange(0, b));
        assert(rev.take(k).reverse() =~= text.subrange(cuts[m], cuts[m + 1]));
        assert(fits(patterns[m], rev.take(k).reverse()));
        lemma_fits_back(patterns[m], rev, k);
        assert forall|i: int| 0 <= i < rest.len() implies fits(
            #[trigger] rest[i],
            text.subrange(more[i], more[i + 1]),
        ) by {
            assert(rest[i] == patterns[i]);
        }
        lemma_cut_suffix(rest, text, more);
        assert(more.last() == cuts[m]);
        assert(rev.skip(k) =~= text.take(cuts[m]).reverse());
    }
}

/// Where the patterns end that match from a place on.
proof fn lemma_prefix_cut(patterns: Seq<PatternView>, text: Seq<Seq<char>>, a: int) -> (cuts: Seq<int>)
    requires
        0 <= a <= text.len(),
        prefix_len(patterns, text.skip(a)) is Some,
    ensures
        is_cut(patterns, text, cuts),
        cuts[0] == a,
        cuts.last() == a + prefix_len(patterns, text.skip(a))->0,
    decreases patterns.len(),
{
    if patterns.len() == 0 {
        seq![a]
    } else {
        let part = text.skip(a);
        let k = pattern_len(patterns[0], part)->0 as int;
        if let PatternView::Lit(lit) = patterns[0] {
            lemma_spelled_from(lit, part, 1);
        }
        assert(part.skip(k) =~= text.skip(a + k));
        let rest = patterns.skip(1);
        let more = lemma_prefix_cut(rest, text, a + k);
        let cuts = seq![a] + more;
        assert(part.take(k) =~= text.subrange(a, a + k));
        assert forall|i: int| 0 <= i < patterns.len() implies fits(
            #[trigger] patterns[i],
            text.subrange(cuts[i], cuts[i + 1]),
        ) by {
            if i > 0 {
                assert(rest[i - 1] == patterns[i]);
                assert(cuts[i] == more[i - 1] && cuts[i + 1] == more[i - 1 + 1]);
            }
        }
        assert forall|i: int, j: int| 0 <= i <= j < cuts.len() implies 0 <= #[trigger] cuts[i]
            <= #[trigger] cuts[j] <= text.len() by {
            if j > 0 {
                assert(cuts[j] == more[j - 1]);
                assert(more[0] <= more[j - 1]);
                if i > 0 {
                    assert(cuts[i] == more[i - 1]);
                }
            }
        }
        cuts
    }
}

/// Where the patterns start that match from a place back.
proof fn lemma_suffix_cut(patterns: Seq<PatternView>, text: Seq<Seq<char>>, b: int) -> (cuts: Seq<int>)
    requires
        0 <= b <= text.len(),
        suffix_len(patterns, text.take(b).reverse()) is Some,
    ensures
        is_cut(patterns, text, cuts),
        cuts[0] == b - suffix_len(patterns, text.take(b).reverse())->0,
        cuts.last() == b,
    decreases patterns.len(),
{
    if patterns.len() == 0 {
        seq![b]
    } else {
        let rev = text.take(b).reverse();
        let m = patterns.len() - 1;
        let k = rev_pattern_len(patterns[m], rev)->0 as int;
        if let PatternView::Lit(lit) = patterns[m] {
            lemma_rev_spelled_from(lit, rev, 1);
        }
        assert(rev.skip(k) =~= text.take(b - k).reverse());
        let rest = patterns.drop_last();
        let more = lemma_suffix_cut(rest, text, b - k);
        let cuts = more.push(b);
        assert(rev.take(k).reverse() =~= text.subrange(b - k, b));
        assert forall|i: int| 0 <= i < patterns.len() implies fits(
            #[trigger] patterns[i],
            text.subrange(cuts[i], cuts[i + 1]),
        ) by {
            if i < m {
                assert(rest[i] == patterns[i]);
                assert(cuts[i] == more[i] && cuts[i + 1] == more[i + 1]);
            } else {
                assert(cuts[m] == more.last());
            }
        }
        assert forall|i: int, j: int| 0 <= i <= j < cuts.len() implies 0 <= #[trigger] cuts[i]
            <= #[trigger] cuts[j] <= text.len() by {
            if i < more.len() {
                assert(cuts[i] == more[i]);
                assert(more[i] <= more[more.len() - 1]);
                if j < more.len() {
                    assert(cuts[j] == more[j]);
                }
            }
        }
        cuts
    }
}

/// Patterns match from a place on, and take that many clusters, exactly if those clusters can be cut into
/// one part for each pattern, that it matches as a whole: for a literal, clusters that spell it, and for
/// wildcards as many as there are of them.
pub proof fn law_prefix(patterns: Seq<PatternView>, text: Seq<Seq<char>>, a: int, k: nat)
    requires
        none_empty(text),
        0 <= a <= text.len(),
    ensures
        prefix_len(patterns, text.skip(a)) == Some(k) <==> spans(patterns, text, a, a + k),
{
    if prefix_len(patterns, text.skip(a)) == Some(k) {
        let cuts = lemma_prefix_cut(patterns, text, a);
        assert(is_cut(patterns, text, cuts));
    }
    if spans(patterns, text, a, a + k) {
        let cuts = choose|cuts: Seq<int>| #[trigger]
            is_cut(patterns, text, cuts) && cuts[0] == a && cuts.last() == a + k;
        lemma_cut_prefix(patterns, text, cuts);
    }
}

/// Patterns match from a place back, and take that many clusters, exactly if those clusters can be cut
/// into one part for each pattern, that it matches as a whole.
pub proof fn law_suffix(patterns: Seq<PatternView>, text: Seq<Seq<char>>, b: int, k: nat)
    requires
        none_empty(text),
        0 <= b <= text.len(),
    ensures
        suffix_len(patterns, text.take(b).reverse()) == Some(k) <==> spans(patterns, text, b - k, b),
{
    if suffix_len(patterns, text.take(b).reverse()) == Some(k) {
        let cuts = lemma_suffix_cut(patterns, text, b);
        assert(is_cut(patterns, text, cuts));
    }
    if spans(patterns, text, b - k, b) {
        let cuts = choose|cuts: Seq<int>| #[trigger]
            is_cut(patterns, text, cuts) && cuts[0] == b - k && cuts.last() == b;
        lemma_cut_suffix(patterns, text, cuts);
    }
}

} // verus!
