//! What the characters of a glob stand for in names of ASCII characters that are printed.
use crate::ascii::{is_plain, singles, small, smalls};
use crate::glob::gaps::lemma_spans;
use crate::glob::lex;
use crate::glob::lex::{first_token, lemma_first_token, lexed, TokenView};
use crate::glob::parse::{joined_lits, patterns_of, segment_of, strs_of, tokens_of};
use crate::glob::pattern::PatternView;
use crate::glob::plain::{
    covers, follow, is_whole, law_whole_none, law_whole_one, law_whole_two, lemma_covers_part,
    matches_plain,
};
use crate::normal::normalized;
use crate::text::{lemma_run, lemma_run_is, run};
use vstd::prelude::*;

verus! {

/// A text matches tokens, one after another: a literal itself, in small letters, `?` one character, and
/// `*` any number of them.
pub open spec fn token_match(ts: Seq<TokenView>, text: Seq<char>) -> bool
    decreases ts.len(),
{
    if ts.len() == 0 {
        text.len() == 0
    } else {
        match ts[0] {
            TokenView::Lit(lit) => {
                &&& smalls(lit).is_prefix_of(text)
                &&& token_match(ts.skip(1), text.skip(lit.len() as int))
            },
            TokenView::AnyGrapheme => text.len() > 0 && token_match(ts.skip(1), text.skip(1)),
            TokenView::AnyStr => exists|k: int|
                0 <= k <= text.len() && token_match(ts.skip(1), #[trigger] text.skip(k)),
            _ => false,
        }
    }
}

/// The tokens are literals and wildcards that stand for single characters.
spec fn are_fixed(ts: Seq<TokenView>) -> bool {
    forall|i: int|
        0 <= i < ts.len() ==> (#[trigger] ts[i] is AnyGrapheme || (ts[i] is Lit && is_plain(
            ts[i]->Lit_0,
        ) && ts[i]->Lit_0.len() > 0))
}

/// The tokens are those of a name.
pub open spec fn are_name(ts: Seq<TokenView>) -> bool {
    forall|i: int|
        0 <= i < ts.len() ==> (#[trigger] ts[i] is AnyGrapheme || ts[i] is AnyStr || (ts[i] is Lit
            && is_plain(ts[i]->Lit_0) && ts[i]->Lit_0.len() > 0))
}

/// Normalizing plain text only makes its letters small.
pub open spec fn is_small_normal() -> bool {
    forall|t: Seq<char>| is_plain(t) ==> #[trigger] normalized(t) == smalls(t)
}

/// Literals one after another match what they spell together.
proof fn lemma_lits(ts: Seq<TokenView>, n: int, text: Seq<char>)
    requires
        0 <= n <= ts.len(),
        forall|i: int| 0 <= i < n ==> #[trigger] ts[i] is Lit && is_plain(ts[i]->Lit_0) && ts[i]->Lit_0.len()
            > 0,
    ensures
        token_match(ts, text) <==> smalls(joined_lits(ts.take(n))).is_prefix_of(text) && token_match(
            ts.skip(n),
            text.skip(joined_lits(ts.take(n)).len() as int),
        ),
        is_plain(joined_lits(ts.take(n))),
        n > 0 ==> joined_lits(ts.take(n)).len() > 0,
    decreases n,
{
    let lits = ts.take(n).map_values(|t: TokenView| t->Lit_0);
    if n == 0 {
        assert(lits =~= seq![]);
        assert(joined_lits(ts.take(n)) =~= seq![]);
        assert(smalls(joined_lits(ts.take(n))) =~= seq![]);
        assert(ts.skip(0) =~= ts);
        assert(text.skip(0) =~= text);
    } else {
        let lit = ts[0]->Lit_0;
        let more = ts.skip(1);
        let rest = joined_lits(more.take(n - 1));
        let all = joined_lits(ts.take(n));
        assert(lits[0] == lit);
        assert(lits.drop_first() =~= more.take(n - 1).map_values(|t: TokenView| t->Lit_0));
        assert(all == lit + rest);
        assert forall|i: int| 0 <= i < n - 1 implies #[trigger] more[i] is Lit && is_plain(
            more[i]->Lit_0,
        ) && more[i]->Lit_0.len() > 0 by {
            assert(ts[i + 1] == more[i]);
        }
        lemma_lits(more, n - 1, text.skip(lit.len() as int));
        assert(more.skip(n - 1) =~= ts.skip(n));
        assert forall|i: int| 0 <= i < all.len() implies ' ' <= #[trigger] all[i] <= '~' by {
            if i < lit.len() {
                assert(' ' <= lit[i] <= '~');
            } else {
                assert(' ' <= rest[i - lit.len()] <= '~');
            }
        }
        assert(smalls(all) =~= smalls(lit) + smalls(rest));
        if smalls(lit).is_prefix_of(text) {
            let behind = text.skip(lit.len() as int);
            assert(text =~= smalls(lit) + behind);
            if all.len() <= text.len() {
                assert(text.skip(all.len() as int) =~= behind.skip(rest.len() as int));
            }
            if smalls(rest).is_prefix_of(behind) {
                assert(text =~= smalls(all) + text.skip(all.len() as int));
            }
            if smalls(all).is_prefix_of(text) {
                assert(behind =~= smalls(rest) + behind.skip(rest.len() as int)) by {
                    assert(text =~= smalls(all) + text.skip(all.len() as int));
                }
            }
        } else if smalls(all).is_prefix_of(text) {
            assert(smalls(lit) =~= text.subrange(0, lit.len() as int)) by {
                assert(smalls(all) =~= text.subrange(0, all.len() as int));
            }
        }
    }
}

/// Wildcards one after another match as many characters as there are of them.
proof fn lemma_anys(ts: Seq<TokenView>, n: int, text: Seq<char>)
    requires
        0 <= n <= ts.len(),
        forall|i: int| 0 <= i < n ==> #[trigger] ts[i] is AnyGrapheme,
    ensures
        token_match(ts, text) <==> n <= text.len() && token_match(ts.skip(n), text.skip(n)),
    decreases n,
{
    if n == 0 {
        assert(ts.skip(0) =~= ts);
        assert(text.skip(0) =~= text);
    } else {
        let more = ts.skip(1);
        assert(ts[0] is AnyGrapheme);
        assert forall|i: int| 0 <= i < n - 1 implies #[trigger] more[i] is AnyGrapheme by {
            assert(ts[i + 1] == more[i]);
        }
        if text.len() > 0 {
            lemma_anys(more, n - 1, text.skip(1));
            assert(more.skip(n - 1) =~= ts.skip(n));
            if n <= text.len() {
                assert(text.skip(1).skip(n - 1) =~= text.skip(n));
            }
        }
    }
}

/// The patterns of literals and single wildcards match as a whole what their tokens match.
proof fn lemma_fixed(ts: Seq<TokenView>, text: Seq<char>)
    requires
        are_fixed(ts),
        is_small_normal(),
    ensures
        is_whole(patterns_of(ts), text) <==> token_match(ts, text),
    decreases ts.len(),
{
    let is_lit = |t: TokenView| t is Lit;
    let no_lit = |t: TokenView| !(t is Lit);
    if ts.len() == 0 {
        law_whole_none(text);
    } else {
        let (n, first, width) = if ts[0] is Lit {
            let n = run(ts, is_lit) as int;
            lemma_run(ts, is_lit);
            assert forall|i: int| 0 <= i < n implies #[trigger] ts[i] is Lit && is_plain(
                ts[i]->Lit_0,
            ) && ts[i]->Lit_0.len() > 0 by {
                assert(is_lit(ts[i]));
            }
            lemma_lits(ts, n, text);
            let all = joined_lits(ts.take(n));
            (n, PatternView::Lit(normalized(all)), all.len() as int)
        } else {
            let n = 1 + run(ts.skip(1), no_lit) as int;
            lemma_run(ts.skip(1), no_lit);
            assert forall|i: int| 0 <= i < n implies #[trigger] ts[i] is AnyGrapheme by {
                if i > 0 {
                    assert(no_lit(ts.skip(1)[i - 1]));
                    assert(ts.skip(1)[i - 1] == ts[i]);
                }
            }
            lemma_anys(ts, n, text);
            (n, PatternView::AnyGraphemes(n as nat), n)
        };
        let rest = ts.skip(n);
        assert(patterns_of(ts) == seq![first] + patterns_of(rest));
        assert forall|i: int| 0 <= i < rest.len() implies (#[trigger] rest[i] is AnyGrapheme || (
        rest[i] is Lit && is_plain(rest[i]->Lit_0) && rest[i]->Lit_0.len() > 0)) by {
            assert(rest[i] == ts[n + i]);
        }
        law_whole_two(seq![first], patterns_of(rest), text);
        if token_match(ts, text) {
            lemma_fixed(rest, text.skip(width));
            law_whole_one(first, text.take(width));
            if ts[0] is Lit {
                let lit = smalls(joined_lits(ts.take(n)));
                assert(text.take(width) =~= lit) by {
                    assert(lit =~= text.subrange(0, width));
                }
            }
            assert(is_whole(seq![first], text.take(width)));
        }
        if is_whole(patterns_of(ts), text) {
            let k = choose|k: int|
                0 <= k <= text.len() && #[trigger] is_whole(seq![first], text.take(k)) && is_whole(
                    patterns_of(rest),
                    text.skip(k),
                );
            law_whole_one(first, text.take(k));
            assert(k == width);
            lemma_fixed(rest, text.skip(k));
            if ts[0] is Lit {
                let lit = smalls(joined_lits(ts.take(n)));
                assert(lit =~= text.subrange(0, width)) by {
                    assert(text.take(k) =~= text.subrange(0, width));
                }
            }
        }
    }
}

/// What two lists of tokens match, one after the other.
proof fn lemma_concat(a: Seq<TokenView>, b: Seq<TokenView>, text: Seq<char>)
    ensures
        token_match(a + b, text) <==> exists|k: int|
            0 <= k <= text.len() && #[trigger] token_match(a, text.take(k)) && token_match(
                b,
                text.skip(k),
            ),
    decreases a.len(),
{
    if token_match(a + b, text) {
        let k = lemma_concat_cut(a, b, text);
        assert(token_match(a, text.take(k)));
    }
    if exists|k: int|
        0 <= k <= text.len() && #[trigger] token_match(a, text.take(k)) && token_match(
            b,
            text.skip(k),
        ) {
        let k = choose|k: int|
            0 <= k <= text.len() && #[trigger] token_match(a, text.take(k)) && token_match(
                b,
                text.skip(k),
            );
        lemma_concat_join(a, b, text, k);
    }
}

proof fn lemma_concat_cut(a: Seq<TokenView>, b: Seq<TokenView>, text: Seq<char>) -> (k: int)
    requires
        token_match(a + b, text),
    ensures
        0 <= k <= text.len(),
        token_match(a, text.take(k)),
        token_match(b, text.skip(k)),
    decreases a.len(),
{
    if a.len() == 0 {
        assert(a + b =~= b);
        assert(text.skip(0) =~= text);
        0
    } else {
        assert((a + b)[0] == a[0]);
        assert((a + b).skip(1) =~= a.skip(1) + b);
        match a[0] {
            TokenView::Lit(lit) => {
                let n = lit.len() as int;
                let k = lemma_concat_cut(a.skip(1), b, text.skip(n));
                assert(text.take(n + k).skip(n) =~= text.skip(n).take(k));
                assert(text.skip(n + k) =~= text.skip(n).skip(k));
                assert(smalls(lit) =~= text.take(n + k).subrange(0, n)) by {
                    assert(smalls(lit) =~= text.subrange(0, n));
                }
                n + k
            },
            TokenView::AnyGrapheme => {
                let k = lemma_concat_cut(a.skip(1), b, text.skip(1));
                assert(text.take(1 + k).skip(1) =~= text.skip(1).take(k));
                assert(text.skip(1 + k) =~= text.skip(1).skip(k));
                1 + k
            },
            _ => {
                let n = choose|n: int|
                    0 <= n <= text.len() && token_match(a.skip(1) + b, #[trigger] text.skip(n));
                let k = lemma_concat_cut(a.skip(1), b, text.skip(n));
                assert(text.take(n + k).skip(n) =~= text.skip(n).take(k));
                assert(text.skip(n + k) =~= text.skip(n).skip(k));
                n + k
            },
        }
    }
}

proof fn lemma_concat_join(a: Seq<TokenView>, b: Seq<TokenView>, text: Seq<char>, k: int)
    requires
        0 <= k <= text.len(),
        token_match(a, text.take(k)),
        token_match(b, text.skip(k)),
    ensures
        token_match(a + b, text),
    decreases a.len(),
{
    let head = text.take(k);
    if a.len() == 0 {
        assert(a + b =~= b);
        assert(text.skip(0) =~= text);
    } else {
        assert((a + b)[0] == a[0]);
        assert((a + b).skip(1) =~= a.skip(1) + b);
        match a[0] {
            TokenView::Lit(lit) => {
                let n = lit.len() as int;
                assert(smalls(lit) =~= head.subrange(0, n));
                assert(smalls(lit) =~= text.subrange(0, n));
                assert(head.skip(n) =~= text.skip(n).take(k - n));
                assert(text.skip(k) =~= text.skip(n).skip(k - n));
                lemma_concat_join(a.skip(1), b, text.skip(n), k - n);
            },
            TokenView::AnyGrapheme => {
                assert(head.skip(1) =~= text.skip(1).take(k - 1));
                assert(text.skip(k) =~= text.skip(1).skip(k - 1));
                lemma_concat_join(a.skip(1), b, text.skip(1), k - 1);
            },
            _ => {
                let n = choose|n: int|
                    0 <= n <= head.len() && token_match(a.skip(1), #[trigger] head.skip(n));
                assert(head.skip(n) =~= text.skip(n).take(k - n));
                assert(text.skip(k) =~= text.skip(n).skip(k - n));
                lemma_concat_join(a.skip(1), b, text.skip(n), k - n);
                assert(token_match(a.skip(1) + b, text.skip(n)));
            },
        }
    }
}

/// Several `*` one after another are as good as one.
proof fn lemma_stars(ts: Seq<TokenView>, n: int, text: Seq<char>)
    requires
        0 < n <= ts.len(),
        forall|i: int| 0 <= i < n ==> #[trigger] ts[i] is AnyStr,
    ensures
        token_match(ts, text) <==> exists|k: int|
            0 <= k <= text.len() && token_match(ts.skip(n), #[trigger] text.skip(k)),
    decreases n,
{
    assert(ts[0] is AnyStr);
    if n > 1 {
        let more = ts.skip(1);
        assert forall|i: int| 0 <= i < n - 1 implies #[trigger] more[i] is AnyStr by {
            assert(ts[i + 1] == more[i]);
        }
        assert(more.skip(n - 1) =~= ts.skip(n));
        if token_match(ts, text) {
            let k = choose|k: int|
                0 <= k <= text.len() && token_match(ts.skip(1), #[trigger] text.skip(k));
            lemma_stars(more, n - 1, text.skip(k));
            let m = choose|m: int|
                0 <= m <= text.skip(k).len() && token_match(
                    ts.skip(n),
                    #[trigger] text.skip(k).skip(m),
                );
            assert(text.skip(k).skip(m) =~= text.skip(k + m));
            assert(token_match(ts.skip(n), text.skip(k + m)));
        }
        if exists|k: int| 0 <= k <= text.len() && token_match(ts.skip(n), #[trigger] text.skip(k)) {
            assert(text.skip(0) =~= text);
            lemma_stars(more, n - 1, text);
            assert(token_match(ts.skip(1), text.skip(0)));
        }
    }
}

/// What tokens with `*` among them match.
proof fn lemma_star_split(ts: Seq<TokenView>, n: int, m: int, text: Seq<char>)
    requires
        0 <= n,
        0 < m,
        n + m <= ts.len(),
        forall|i: int| n <= i < n + m ==> #[trigger] ts[i] is AnyStr,
    ensures
        token_match(ts, text) <==> exists|k: int, j: int|
            0 <= k <= j <= text.len() && #[trigger] token_match(ts.take(n), text.take(k))
                && #[trigger] token_match(ts.skip(n + m), text.skip(j)),
{
    let a = ts.take(n);
    let rest = ts.skip(n);
    assert(ts =~= a + rest);
    lemma_concat(a, rest, text);
    assert forall|i: int| 0 <= i < m implies #[trigger] rest[i] is AnyStr by {
        assert(ts[n + i] == rest[i]);
    }
    assert(rest.skip(m) =~= ts.skip(n + m));
    if token_match(ts, text) {
        let k = choose|k: int|
            0 <= k <= text.len() && #[trigger] token_match(a, text.take(k)) && token_match(
                rest,
                text.skip(k),
            );
        lemma_stars(rest, m, text.skip(k));
        let j = choose|j: int|
            0 <= j <= text.skip(k).len() && token_match(
                rest.skip(m),
                #[trigger] text.skip(k).skip(j),
            );
        assert(text.skip(k).skip(j) =~= text.skip(k + j));
        assert(token_match(ts.take(n), text.take(k)) && token_match(
            ts.skip(n + m),
            text.skip(k + j),
        ));
    }
    if exists|k: int, j: int|
        0 <= k <= j <= text.len() && #[trigger] token_match(ts.take(n), text.take(k))
            && #[trigger] token_match(ts.skip(n + m), text.skip(j)) {
        let (k, j) = choose|k: int, j: int|
            0 <= k <= j <= text.len() && #[trigger] token_match(ts.take(n), text.take(k))
                && #[trigger] token_match(ts.skip(n + m), text.skip(j));
        assert(text.skip(k).skip(j - k) =~= text.skip(j));
        lemma_stars(rest, m, text.skip(k));
        assert(token_match(rest, text.skip(k)));
        assert(token_match(a, text.take(k)));
    }
}

/// Where the first `*` of a name are.
proof fn lemma_name_stars(ts: Seq<TokenView>) -> (r: (int, int))
    requires
        are_name(ts),
    ensures
        r.0 == run(ts, |t: TokenView| !(t is AnyStr)),
        0 <= r.0 <= ts.len(),
        are_fixed(ts.take(r.0)),
        r.0 == ts.len() ==> strs_of(ts) == seq![patterns_of(ts)] && are_fixed(ts),
        r.0 < ts.len() ==> {
            &&& 0 < r.1
            &&& r.0 + r.1 <= ts.len()
            &&& forall|i: int| r.0 <= i < r.0 + r.1 ==> #[trigger] ts[i] is AnyStr
            &&& strs_of(ts) == seq![patterns_of(ts.take(r.0))] + strs_of(ts.skip(r.0 + r.1))
            &&& are_name(ts.skip(r.0 + r.1))
        },
{
    let no_star = |t: TokenView| !(t is AnyStr);
    let star = |t: TokenView| t is AnyStr;
    let n = run(ts, no_star) as int;
    lemma_run(ts, no_star);
    assert forall|i: int| 0 <= i < n implies (#[trigger] ts.take(n)[i] is AnyGrapheme || (ts.take(
        n,
    )[i] is Lit && is_plain(ts.take(n)[i]->Lit_0) && ts.take(n)[i]->Lit_0.len() > 0)) by {
        assert(no_star(ts[i]));
    }
    if n == ts.len() {
        assert(ts.take(n) =~= ts);
        (n, 0)
    } else {
        let rest = ts.skip(n);
        let m = run(rest, star) as int;
        lemma_run(rest, star);
        assert(!no_star(ts[n]));
        assert(rest[0] == ts[n]);
        assert(m > 0);
        assert forall|i: int| n <= i < n + m implies #[trigger] ts[i] is AnyStr by {
            assert(star(rest[i - n]));
        }
        let after = ts.skip(n + m);
        assert forall|i: int| 0 <= i < after.len() implies (#[trigger] after[i] is AnyGrapheme
            || after[i] is AnyStr || (after[i] is Lit && is_plain(after[i]->Lit_0)
            && after[i]->Lit_0.len() > 0)) by {
            assert(after[i] == ts[n + m + i]);
        }
        (n, m)
    }
}

/// The strings of a name follow one another, with any gap before the first, exactly where its tokens
/// match.
proof fn lemma_strs(ts: Seq<TokenView>, text: Seq<char>, from: int)
    requires
        are_name(ts),
        is_small_normal(),
        0 <= from <= text.len(),
    ensures
        follow(strs_of(ts), text, from) <==> exists|j: int|
            from <= j <= text.len() && token_match(ts, #[trigger] text.skip(j)),
    decreases ts.len(),
{
    let (n, m) = lemma_name_stars(ts);
    let strs = strs_of(ts);
    let len = text.len() as int;
    if n == ts.len() {
        if follow(strs, text, from) {
            let a = choose|a: int| from <= a && #[trigger] covers(strs[0], text, a, len);
            lemma_spans(strs[0], singles(text), a, len);
            lemma_covers_part(strs[0], text, a, len);
            assert(text.subrange(a, len) =~= text.skip(a));
            lemma_fixed(ts, text.skip(a));
        }
        if exists|j: int| from <= j <= text.len() && token_match(ts, #[trigger] text.skip(j)) {
            let j = choose|j: int| from <= j <= text.len() && token_match(ts, #[trigger] text.skip(j));
            lemma_fixed(ts, text.skip(j));
            assert(text.subrange(j, len) =~= text.skip(j));
            lemma_covers_part(strs[0], text, j, len);
        }
    } else {
        let first = ts.take(n);
        let rest = ts.skip(n + m);
        assert(strs.skip(1) =~= strs_of(rest));
        assert(strs_of(rest).len() > 0);
        if follow(strs, text, from) {
            let (a, b) = choose|a: int, b: int|
                from <= a && #[trigger] covers(strs[0], text, a, b) && follow(strs.skip(1), text, b);
            lemma_spans(strs[0], singles(text), a, b);
            lemma_covers_part(strs[0], text, a, b);
            lemma_strs(rest, text, b);
            let j = choose|j: int| b <= j <= text.len() && token_match(rest, #[trigger] text.skip(j));
            let here = text.skip(a);
            assert(here.take(b - a) =~= text.subrange(a, b));
            assert(here.skip(j - a) =~= text.skip(j));
            lemma_fixed(first, here.take(b - a));
            lemma_star_split(ts, n, m, here);
            assert(token_match(first, here.take(b - a)) && token_match(rest, here.skip(j - a)));
            assert(token_match(ts, text.skip(a)));
        }
        if exists|j: int| from <= j <= text.len() && token_match(ts, #[trigger] text.skip(j)) {
            let a = choose|a: int| from <= a <= text.len() && token_match(ts, #[trigger] text.skip(a));
            let here = text.skip(a);
            lemma_star_split(ts, n, m, here);
            let (k, j) = choose|k: int, j: int|
                0 <= k <= j <= here.len() && #[trigger] token_match(first, here.take(k))
                    && #[trigger] token_match(rest, here.skip(j));
            lemma_fixed(first, here.take(k));
            assert(here.take(k) =~= text.subrange(a, a + k));
            assert(here.skip(j) =~= text.skip(a + j));
            lemma_covers_part(strs[0], text, a, a + k);
            lemma_strs(rest, text, a + k);
            assert(token_match(rest, text.skip(a + j)));
            assert(covers(strs[0], text, a, a + k));
        }
    }
}

/// A plain text matches the segment of a name exactly if it matches the tokens of the name, one after
/// another.
pub proof fn law_tokens(ts: Seq<TokenView>, text: Seq<char>)
    requires
        are_name(ts),
        is_small_normal(),
    ensures
        matches_plain(segment_of(ts), text) <==> token_match(ts, text),
{
    let (n, m) = lemma_name_stars(ts);
    let segment = segment_of(ts);
    let strs = strs_of(ts);
    let len = text.len() as int;
    if n == ts.len() {
        assert(segment.floating.len() == 0);
        lemma_fixed(ts, text);
        if token_match(ts, text) {
            assert(covers(segment.base, text, 0, len));
        }
    } else {
        let first = ts.take(n);
        let rest = ts.skip(n + m);
        assert(segment.floating =~= strs_of(rest));
        assert(strs_of(rest).len() > 0);
        lemma_star_split(ts, n, m, text);
        if matches_plain(segment, text) {
            let k = choose|k: int| #[trigger]
                covers(segment.base, text, 0, k) && if segment.floating.len() == 0 {
                    k == text.len()
                } else {
                    follow(segment.floating, text, k)
                };
            lemma_spans(segment.base, singles(text), 0, k);
            lemma_covers_part(segment.base, text, 0, k);
            assert(text.subrange(0, k) =~= text.take(k));
            lemma_fixed(first, text.take(k));
            lemma_strs(rest, text, k);
            let j = choose|j: int| k <= j <= text.len() && token_match(rest, #[trigger] text.skip(j));
            assert(token_match(first, text.take(k)) && token_match(rest, text.skip(j)));
        }
        if token_match(ts, text) {
            let (k, j) = choose|k: int, j: int|
                0 <= k <= j <= text.len() && #[trigger] token_match(first, text.take(k))
                    && #[trigger] token_match(rest, text.skip(j));
            lemma_fixed(first, text.take(k));
            assert(text.subrange(0, k) =~= text.take(k));
            lemma_covers_part(segment.base, text, 0, k);
            lemma_strs(rest, text, k);
            assert(covers(segment.base, text, 0, k));
        }
    }
}

/// The glob of a single name: it has no separators and no `**`, and a backslash is followed by a character
/// that it makes stand for itself.
pub open spec fn is_name_glob(glob: Seq<char>) -> bool
    decreases glob.len(),
{
    if glob.len() == 0 {
        true
    } else if glob[0] == '\\' {
        &&& glob.len() >= 2
        &&& glob[1] == '?' || glob[1] == '*' || glob[1] == '\\'
        &&& is_name_glob(glob.skip(2))
    } else {
        &&& glob[0] != '/'
        &&& !(glob[0] == '*' && glob.len() >= 2 && glob[1] == '*')
        &&& is_name_glob(glob.skip(1))
    }
}

/// A text matches the characters of a glob, one after another: `*` any number of characters, `?` one, a
/// backslash and a character that character, and any other character itself, in small letters.
pub open spec fn wild(glob: Seq<char>, text: Seq<char>) -> bool
    decreases glob.len(),
{
    if glob.len() == 0 {
        text.len() == 0
    } else if glob[0] == '*' {
        exists|k: int| 0 <= k <= text.len() && wild(glob.skip(1), #[trigger] text.skip(k))
    } else if glob[0] == '?' {
        text.len() > 0 && wild(glob.skip(1), text.skip(1))
    } else if glob[0] == '\\' && glob.len() >= 2 {
        text.len() > 0 && text[0] == small(glob[1]) && wild(glob.skip(2), text.skip(1))
    } else {
        text.len() > 0 && text[0] == small(glob[0]) && wild(glob.skip(1), text.skip(1))
    }
}

/// Characters that stand for themselves match themselves, in small letters.
proof fn lemma_wild_lit(glob: Seq<char>, n: int, text: Seq<char>)
    requires
        0 <= n <= glob.len(),
        forall|i: int| 0 <= i < n ==> lex::is_plain(#[trigger] glob[i]),
        is_name_glob(glob),
    ensures
        wild(glob, text) <==> smalls(glob.take(n)).is_prefix_of(text) && wild(
            glob.skip(n),
            text.skip(n),
        ),
        is_name_glob(glob.skip(n)),
    decreases n,
{
    if n == 0 {
        assert(smalls(glob.take(0)) =~= seq![]);
        assert(glob.skip(0) =~= glob);
        assert(text.skip(0) =~= text);
    } else {
        let more = glob.skip(1);
        assert(lex::is_plain(glob[0]));
        assert forall|i: int| 0 <= i < n - 1 implies lex::is_plain(#[trigger] more[i]) by {
            assert(glob[i + 1] == more[i]);
        }
        let lits = smalls(glob.take(n));
        let behind = text.skip(1);
        lemma_wild_lit(more, n - 1, behind);
        assert(more.skip(n - 1) =~= glob.skip(n));
        assert(lits =~= seq![small(glob[0])] + smalls(more.take(n - 1)));
        if text.len() > 0 {
            if n <= text.len() {
                assert(behind.skip(n - 1) =~= text.skip(n));
            }
            if smalls(more.take(n - 1)).is_prefix_of(behind) && text[0] == small(glob[0]) {
                assert(lits =~= text.subrange(0, n)) by {
                    assert(smalls(more.take(n - 1)) =~= behind.subrange(0, n - 1));
                }
            }
            if lits.is_prefix_of(text) {
                assert(lits =~= text.subrange(0, n));
                assert(text[0] == lits[0]);
                assert(smalls(more.take(n - 1)) =~= behind.subrange(0, n - 1)) by {
                    assert forall|i: int| 0 <= i < n - 1 implies #[trigger] smalls(more.take(n - 1))[i]
                        == behind[i] by {
                        assert(lits[i + 1] == text[i + 1]);
                    }
                }
            }
        }
    }
}

/// One token more at the start.
proof fn lemma_lexed_first(glob: Seq<char>)
    requires
        glob.len() > 0,
        first_token(glob) is Ok,
    ensures
        lexed(glob) == seq![Ok::<TokenView, lex::GlobError>(first_token(glob)->Ok_0.0)]
            + lexed(glob.skip(first_token(glob)->Ok_0.1 as int)),
        tokens_of(lexed(glob)) == seq![first_token(glob)->Ok_0.0] + tokens_of(
            lexed(glob.skip(first_token(glob)->Ok_0.1 as int)),
        ),
{
    let (token, width) = first_token(glob)->Ok_0;
    lemma_first_token(glob);
    assert(tokens_of(lexed(glob)) =~= seq![token] + tokens_of(lexed(glob.skip(width as int))));
}

/// The first token of the glob of a name.
proof fn lemma_name_token(glob: Seq<char>)
    requires
        glob.len() > 0,
        is_plain(glob),
        is_name_glob(glob),
    ensures
        first_token(glob) matches Ok((token, width)) && {
            &&& 1 <= width <= glob.len()
            &&& is_name_glob(glob.skip(width as int))
            &&& is_plain(glob.skip(width as int))
            &&& match token {
                TokenView::AnyStr => glob[0] == '*' && width == 1,
                TokenView::AnyGrapheme => glob[0] == '?' && width == 1,
                TokenView::Lit(lit) => {
                    &&& is_plain(lit)
                    &&& lit.len() > 0
                    &&& lex::is_plain(glob[0]) && lit == glob.take(width as int) || glob[0]
                        == '\\' && width >= 2 && lit == glob.subrange(1, width as int) && !lex::is_plain(
                        lit[0],
                    )
                    &&& forall|i: int|
                        (if glob[0] == '\\' {
                            2
                        } else {
                            0int
                        }) <= i < width ==> lex::is_plain(#[trigger] glob[i])
                },
                _ => false,
            }
        },
{
    let plain = |c: char| lex::is_plain(c);
    let star = |c: char| c == '*';
    lemma_first_token(glob);
    if glob[0] == '*' {
        if glob.len() >= 2 {
            assert(!star(glob[1]));
        }
        lemma_run_is(glob, star, 1);
    } else if glob[0] == '\\' {
        let rest = glob.skip(2);
        let n = run(rest, plain) as int;
        lemma_run(rest, plain);
        assert forall|i: int| 2 <= i < 2 + n implies lex::is_plain(
            #[trigger] glob[i],
        ) by {
            assert(plain(rest[i - 2]));
        }
        assert forall|i: int| 0 <= i < n implies lex::is_plain(#[trigger] rest[i]) by {
            assert(plain(rest[i]));
        }
        lemma_wild_lit(rest, n, seq![]);
        assert(rest.skip(n) =~= glob.skip(2 + n));
        let lit = glob.subrange(1, 2 + n);
        assert forall|i: int| 0 <= i < lit.len() implies ' ' <= #[trigger] lit[i] <= '~' by {
            assert(lit[i] == glob[i + 1]);
        }
    } else if glob[0] != '?' {
        let rest = glob.skip(1);
        let n = run(rest, plain) as int;
        lemma_run(rest, plain);
        assert forall|i: int| 0 <= i < 1 + n implies lex::is_plain(
            #[trigger] glob[i],
        ) by {
            if i > 0 {
                assert(plain(rest[i - 1]));
            }
        }
        lemma_wild_lit(glob, 1 + n, seq![]);
        let lit = glob.take(1 + n);
        assert forall|i: int| 0 <= i < lit.len() implies ' ' <= #[trigger] lit[i] <= '~' by {
            assert(lit[i] == glob[i]);
        }
    }
    let width = first_token(glob)->Ok_0.1 as int;
    let after = glob.skip(width);
    assert forall|i: int| 0 <= i < after.len() implies ' ' <= #[trigger] after[i] <= '~' by {
        assert(after[i] == glob[width + i]);
    }
}

/// The tokens of the glob of a name match what its characters match.
pub proof fn law_lexed(glob: Seq<char>, text: Seq<char>)
    requires
        is_plain(glob),
        is_name_glob(glob),
    ensures
        forall|i: int| 0 <= i < lexed(glob).len() ==> (#[trigger] lexed(glob)[i]) is Ok,
        are_name(tokens_of(lexed(glob))),
        token_match(tokens_of(lexed(glob)), text) <==> wild(glob, text),
    decreases glob.len(),
{
    let ts = tokens_of(lexed(glob));
    if glob.len() == 0 {
        assert(ts =~= seq![]);
    } else {
        lemma_name_token(glob);
        lemma_lexed_first(glob);
        let (token, width) = first_token(glob)->Ok_0;
        let n = width as int;
        let rest = glob.skip(n);
        assert(ts[0] == token);
        assert(ts.skip(1) =~= tokens_of(lexed(rest)));
        law_lexed(rest, text);
        assert forall|i: int| 0 <= i < lexed(glob).len() implies (#[trigger] lexed(glob)[i]) is Ok by {
            if i > 0 {
                assert(lexed(glob)[i] == lexed(rest)[i - 1]);
            }
        }
        assert forall|i: int| 0 <= i < ts.len() implies (#[trigger] ts[i] is AnyGrapheme
            || ts[i] is AnyStr || (ts[i] is Lit && is_plain(ts[i]->Lit_0) && ts[i]->Lit_0.len()
            > 0)) by {
            if i > 0 {
                assert(ts[i] == tokens_of(lexed(rest))[i - 1]);
            }
        }
        match token {
            TokenView::AnyStr => {
                assert forall|k: int| 0 <= k <= text.len() implies (token_match(
                    ts.skip(1),
                    #[trigger] text.skip(k),
                ) <==> wild(rest, text.skip(k))) by {
                    law_lexed(rest, text.skip(k));
                }
            },
            TokenView::AnyGrapheme => {
                law_lexed(rest, text.skip(1));
            },
            TokenView::Lit(lit) => {
                let m = lit.len() as int;
                law_lexed(rest, text.skip(m));
                if glob[0] == '\\' {
                    let more = glob.skip(2);
                    let behind = text.skip(1);
                    assert forall|i: int| 0 <= i < n - 2 implies lex::is_plain(
                        #[trigger] more[i],
                    ) by {
                        assert(more[i] == glob[i + 2]);
                    }
                    lemma_wild_lit(more, n - 2, behind);
                    assert(more.skip(n - 2) =~= rest);
                    assert(m == n - 1);
                    assert(smalls(lit) =~= seq![small(glob[1])] + smalls(more.take(n - 2)));
                    if text.len() > 0 {
                        if m <= text.len() {
                            assert(behind.skip(n - 2) =~= text.skip(m));
                        }
                        if smalls(more.take(n - 2)).is_prefix_of(behind) && text[0] == small(glob[1]) {
                            assert(smalls(lit) =~= text.subrange(0, m)) by {
                                assert(smalls(more.take(n - 2)) =~= behind.subrange(0, n - 2));
                            }
                        }
                        if smalls(lit).is_prefix_of(text) {
                            assert(smalls(lit) =~= text.subrange(0, m));
                            assert(text[0] == smalls(lit)[0]);
                            assert(smalls(more.take(n - 2)) =~= behind.subrange(0, n - 2)) by {
                                assert forall|i: int|
                                    0 <= i < n - 2 implies #[trigger] smalls(more.take(n - 2))[i]
                                    == behind[i] by {
                                    assert(smalls(lit)[i + 1] == text[i + 1]);
                                }
                            }
                        }
                    }
                } else {
                    lemma_wild_lit(glob, n, text);
                }
            },
            _ => {},
        }
    }
}

/// A plain text matches the segment of a name exactly if it matches the characters that the name is
/// written with, one after another.
pub proof fn law_wild(glob: Seq<char>, text: Seq<char>)
    requires
        is_plain(glob),
        is_name_glob(glob),
        is_small_normal(),
    ensures
        matches_plain(segment_of(tokens_of(lexed(glob))), text) <==> wild(glob, text),
{
    law_lexed(glob, text);
    law_tokens(tokens_of(lexed(glob)), text);
}

} // verus!
