//! A glob may match several files exactly if there is a wildcard in it.
use crate::glob::lex::{first_token, is_plain, lemma_first_token, lexed, TokenView};
use crate::glob::parse::{
    component_of, components_of, glob_of, in_name, is_below, is_parent, law_literal_segment,
    name_end, parsed, path_match_multiple, paths_of, patterns_of, segment_of, segmented, strs_of,
    tokens_of, ComponentView, GlobView, Lexeme, Part,
};
use crate::glob::pattern::SegmentView;
use crate::text::{lemma_run, run};
use vstd::prelude::*;

verus! {

/// The text has a `*` or a `?` that no backslash stands before to make it stand for itself.
pub open spec fn has_wildcard(s: Seq<char>) -> bool
    decreases s.len(),
{
    if s.len() == 0 {
        false
    } else if s[0] == '\\' {
        s.len() >= 2 && has_wildcard(s.skip(2))
    } else {
        s[0] == '*' || s[0] == '?' || has_wildcard(s.skip(1))
    }
}

/// The lexeme is a wildcard.
spec fn is_wild(t: Lexeme) -> bool {
    t matches Ok(token) && (token is AnyGrapheme || token is AnyStr || token is AnyTree)
}

spec fn any_wild(ts: Seq<Lexeme>) -> bool {
    exists|i: int| 0 <= i < ts.len() && is_wild(#[trigger] ts[i])
}

/// The component may match several files.
spec fn is_wild_part(c: Part) -> bool {
    match c {
        Ok(ComponentView::AnyTree) => true,
        Ok(ComponentView::Seg(s)) => s.is_match_multiple(),
        _ => false,
    }
}

spec fn any_wild_part(cs: Seq<Part>) -> bool {
    exists|i: int| 0 <= i < cs.len() && is_wild_part(#[trigger] cs[i])
}

spec fn all_ok(cs: Seq<Part>) -> bool {
    forall|i: int| 0 <= i < cs.len() ==> (#[trigger] cs[i]) is Ok
}

proof fn lemma_any_wild(a: Seq<Lexeme>, b: Seq<Lexeme>)
    ensures
        any_wild(a + b) == (any_wild(a) || any_wild(b)),
{
    let all = a + b;
    if any_wild(all) {
        let i = choose|i: int| 0 <= i < all.len() && is_wild(#[trigger] all[i]);
        if i < a.len() {
            assert(is_wild(a[i]));
        } else {
            assert(is_wild(b[i - a.len()]));
        }
    }
    if any_wild(a) {
        let i = choose|i: int| 0 <= i < a.len() && is_wild(#[trigger] a[i]);
        assert(is_wild(all[i]));
    }
    if any_wild(b) {
        let i = choose|i: int| 0 <= i < b.len() && is_wild(#[trigger] b[i]);
        assert(is_wild(all[a.len() + i]));
    }
}

proof fn lemma_any_wild_part(a: Seq<Part>, b: Seq<Part>)
    ensures
        any_wild_part(a + b) == (any_wild_part(a) || any_wild_part(b)),
        all_ok(a + b) == (all_ok(a) && all_ok(b)),
{
    let all = a + b;
    if any_wild_part(all) {
        let i = choose|i: int| 0 <= i < all.len() && is_wild_part(#[trigger] all[i]);
        if i < a.len() {
            assert(is_wild_part(a[i]));
        } else {
            assert(is_wild_part(b[i - a.len()]));
        }
    }
    if any_wild_part(a) {
        let i = choose|i: int| 0 <= i < a.len() && is_wild_part(#[trigger] a[i]);
        assert(is_wild_part(all[i]));
    }
    if any_wild_part(b) {
        let i = choose|i: int| 0 <= i < b.len() && is_wild_part(#[trigger] b[i]);
        assert(is_wild_part(all[a.len() + i]));
    }
    if all_ok(all) {
        assert forall|i: int| 0 <= i < a.len() implies (#[trigger] a[i]) is Ok by {
            assert(all[i] is Ok);
        }
        assert forall|i: int| 0 <= i < b.len() implies (#[trigger] b[i]) is Ok by {
            assert(all[a.len() + i] is Ok);
        }
    }
}

/// Plain characters are no wildcards.
proof fn lemma_plain_start(s: Seq<char>, n: int)
    requires
        0 <= n <= s.len(),
        forall|i: int| 0 <= i < n ==> is_plain(#[trigger] s[i]),
    ensures
        has_wildcard(s) == has_wildcard(s.skip(n)),
    decreases n,
{
    if n == 0 {
        assert(s.skip(0) =~= s);
    } else {
        assert(is_plain(s[0]));
        let rest = s.skip(1);
        assert forall|i: int| 0 <= i < n - 1 implies is_plain(#[trigger] rest[i]) by {
            assert(rest[i] == s[i + 1]);
        }
        lemma_plain_start(rest, n - 1);
        assert(rest.skip(n - 1) =~= s.skip(n));
    }
}

/// The wildcards of a text are among its tokens.
proof fn lemma_lexed_wild(s: Seq<char>)
    requires
        forall|i: int| 0 <= i < lexed(s).len() ==> (#[trigger] lexed(s)[i]) is Ok,
    ensures
        any_wild(lexed(s)) == has_wildcard(s),
    decreases s.len(),
{
    if s.len() > 0 {
        lemma_first_token(s);
        assert(lexed(s)[0] is Ok);
        let (token, width) = first_token(s)->Ok_0;
        let n = width as int;
        let rest = s.skip(n);
        let first: Seq<Lexeme> = seq![Ok(token)];
        assert(lexed(s) == first + lexed(rest));
        assert forall|i: int| 0 <= i < lexed(rest).len() implies (#[trigger] lexed(rest)[i]) is Ok by {
            assert(lexed(s)[i + 1] == lexed(rest)[i]);
        }
        lemma_lexed_wild(rest);
        lemma_any_wild(first, lexed(rest));
        assert(first[0] == Ok::<TokenView, crate::glob::lex::GlobError>(token));
        assert(any_wild(first) == is_wild(first[0]));
        if s[0] == '\\' {
            let inner = s.skip(2);
            let p = |c: char| is_plain(c);
            lemma_run(inner, p);
            assert forall|i: int| 0 <= i < n - 2 implies is_plain(#[trigger] inner[i]) by {
                assert(p(inner[i]));
            }
            lemma_plain_start(inner, n - 2);
            assert(inner.skip(n - 2) =~= rest);
        } else if s[0] != '/' && s[0] != '?' && s[0] != '*' {
            let inner = s.skip(1);
            let p = |c: char| is_plain(c);
            lemma_run(inner, p);
            assert forall|i: int| 0 <= i < n - 1 implies is_plain(#[trigger] inner[i]) by {
                assert(p(inner[i]));
            }
            lemma_plain_start(inner, n - 1);
            assert(inner.skip(n - 1) =~= rest);
        }
    } else {
        assert(lexed(s) =~= seq![]);
    }
}

/// A name of literals has no wildcard.
proof fn lemma_literal_name(ts: Seq<TokenView>)
    requires
        ts.len() > 0,
        forall|i: int| 0 <= i < ts.len() ==> (#[trigger] ts[i]) is Lit,
    ensures
        !segment_of(ts).is_match_multiple(),
{
    let not_star = |t: TokenView| !(t is AnyStr);
    let is_lit = |t: TokenView| t is Lit;
    lemma_run(ts, not_star);
    let n = run(ts, not_star) as int;
    if n < ts.len() {
        assert(!not_star(ts[n]));
    }
    lemma_run(ts, is_lit);
    let k = run(ts, is_lit) as int;
    if k < ts.len() {
        assert(!is_lit(ts[k]));
    }
    assert(ts[0] is Lit);
    assert(patterns_of(ts.skip(k)) =~= seq![]);
    assert(strs_of(ts) =~= seq![patterns_of(ts)]);
    assert(segment_of(ts).floating =~= seq![]);
    assert(patterns_of(ts).len() == 1);
    assert(patterns_of(ts)[0] is Lit);
}

/// A name without wildcards is made of literals.
proof fn lemma_name_literal(ts: Seq<TokenView>)
    requires
        ts.len() > 0,
        !segment_of(ts).is_match_multiple(),
    ensures
        forall|i: int| 0 <= i < ts.len() ==> (#[trigger] ts[i]) is Lit,
{
    let is_lit = |t: TokenView| t is Lit;
    law_literal_segment(ts);
    lemma_run(ts, is_lit);
    let k = run(ts, is_lit) as int;
    let base = segment_of(ts).base;
    assert(base.len() == 1);
    assert(base[0] is Lit);
    lemma_strs_first(ts);
    if k < ts.len() {
        assert(!is_lit(ts[k]));
        if k > 0 {
            let rest = ts.skip(k);
            assert(rest[0] == ts[k]);
            assert(patterns_of(rest).len() > 0);
            assert(patterns_of(ts).len() >= 2);
        } else {
            assert(patterns_of(ts)[0] is AnyGraphemes);
        }
    }
    assert forall|i: int| 0 <= i < ts.len() implies (#[trigger] ts[i]) is Lit by {
        assert(is_lit(ts[i]));
    }
}

/// A name without `*` is one string.
proof fn lemma_strs_first(ts: Seq<TokenView>)
    requires
        segment_of(ts).floating.len() == 0,
    ensures
        strs_of(ts) == seq![patterns_of(ts)],
    decreases ts.len(),
{
    let not_star = |t: TokenView| !(t is AnyStr);
    let n = run(ts, not_star) as int;
    lemma_run(ts, not_star);
    if n < ts.len() {
        let is_star = |t: TokenView| t is AnyStr;
        lemma_run(ts.skip(n), is_star);
        let stars = run(ts.skip(n), is_star) as int;
        lemma_strs_some(ts.skip(n + stars));
        assert(strs_of(ts).len() >= 2);
    }
}

proof fn lemma_strs_some(ts: Seq<TokenView>)
    ensures
        strs_of(ts).len() >= 1,
{
}

/// The wildcards of a name are in its component.
proof fn lemma_name_wild(name: Seq<Lexeme>)
    requires
        forall|i: int| 0 <= i < name.len() ==> in_name(#[trigger] name[i]),
    ensures
        any_wild(name) == match component_of(tokens_of(name)) {
            Some(c) => is_wild_part(Ok(c)),
            None => false,
        },
{
    let ts = tokens_of(name);
    assert(ts.len() == name.len());
    if ts == seq![TokenView::Lit(seq!['.'])] || ts == seq![TokenView::Lit(seq!['.', '.'])] {
        assert forall|i: int| 0 <= i < name.len() implies !is_wild(#[trigger] name[i]) by {
            assert(in_name(name[i]));
            assert(ts[i] is Lit);
        }
    } else if ts.len() > 0 {
        if any_wild(name) {
            let i = choose|i: int| 0 <= i < name.len() && is_wild(#[trigger] name[i]);
            assert(!(ts[i] is Lit));
            if !segment_of(ts).is_match_multiple() {
                lemma_name_literal(ts);
            }
        } else {
            assert forall|i: int| 0 <= i < ts.len() implies (#[trigger] ts[i]) is Lit by {
                assert(in_name(name[i]));
                assert(!is_wild(name[i]));
            }
            lemma_literal_name(ts);
        }
    }
}

/// The wildcards of a list of lexemes are among its components.
proof fn lemma_components_wild(ts: Seq<Lexeme>)
    requires
        all_ok(components_of(ts)),
    ensures
        any_wild_part(components_of(ts)) == any_wild(ts),
        forall|i: int| 0 <= i < ts.len() ==> (#[trigger] ts[i]) is Ok,
    decreases ts.len(),
{
    let p = |t: Lexeme| in_name(t);
    let n = name_end(ts);
    lemma_run(ts, p);
    let name = ts.take(n);
    let own: Seq<Part> = match component_of(tokens_of(name)) {
        Some(c) => seq![Ok(c)],
        None => seq![],
    };
    assert forall|i: int| 0 <= i < name.len() implies in_name(#[trigger] name[i]) by {
        assert(p(ts[i]));
    }
    lemma_name_wild(name);
    if own.len() > 0 {
        assert(is_wild_part(own[0]) == any_wild_part(own));
    }
    assert(any_wild_part(own) == any_wild(name));
    if n == ts.len() {
        assert(name =~= ts);
    } else {
        let cs = components_of(ts);
        let next = seq![ts[n]];
        let rest = ts.skip(n + 1);
        assert(ts =~= name + next + rest);
        lemma_any_wild(name + next, rest);
        lemma_any_wild(name, next);
        assert(next[0] == ts[n]);
        assert(any_wild(next) == is_wild(next[0]));
        match ts[n] {
            Err(e) => {
                assert(cs[0] is Err);
            },
            Ok(TokenView::Sep) => {
                if n + 1 == ts.len() {
                    let end: Seq<Part> = seq![Ok(ComponentView::TrailingSep)];
                    assert(cs == own + end);
                    lemma_any_wild_part(own, end);
                    assert(!is_wild_part(end[0]));
                    assert(rest =~= seq![]);
                } else {
                    lemma_any_wild_part(own, components_of(rest));
                    lemma_components_wild(rest);
                }
            },
            Ok(token) => {
                assert(!in_name(ts[n])) by {
                    assert(!p(ts[n]));
                }
                assert(cs[0] is Ok);
                let tree: Seq<Part> = seq![Ok(ComponentView::AnyTree)];
                assert(cs == tree + components_of(rest));
                lemma_any_wild_part(tree, components_of(rest));
                assert(is_wild_part(tree[0]));
                lemma_components_wild(rest);
            },
        }
        assert forall|i: int| 0 <= i < ts.len() implies (#[trigger] ts[i]) is Ok by {
            if i < n {
                assert(in_name(name[i]));
            } else if i > n {
                assert(ts[i] == rest[i - n - 1]);
            }
        }
    }
}

spec fn any_wild_view(cs: Seq<ComponentView>) -> bool {
    exists|i: int| 0 <= i < cs.len() && is_wild_part(Ok(#[trigger] cs[i]))
}

/// The wildcards of components are in the paths that they are put together to.
proof fn lemma_paths_wild(cur: Seq<SegmentView>, cs: Seq<ComponentView>)
    ensures
        paths_of(cur, false, cs).len() >= 1,
        paths_of(cur, false, cs).len() > 1 || path_match_multiple(paths_of(cur, false, cs)[0])
            <==> path_match_multiple(cur) || any_wild_view(cs),
    decreases cs.len(),
{
    if cs.len() > 0 {
        let rest = cs.skip(1);
        if any_wild_view(rest) {
            let i = choose|i: int| 0 <= i < rest.len() && is_wild_part(Ok(#[trigger] rest[i]));
            assert(cs[i + 1] == rest[i]);
        }
        if any_wild_view(cs) && !is_wild_part(Ok(cs[0])) {
            let i = choose|i: int| 0 <= i < cs.len() && is_wild_part(Ok(#[trigger] cs[i]));
            assert(rest[i - 1] == cs[i]);
        }
        match cs[0] {
            ComponentView::Seg(s) => {
                let more = cur.push(s);
                lemma_paths_wild(more, rest);
                assert(more[cur.len() as int] == s);
                if path_match_multiple(cur) {
                    let i = choose|i: int|
                        0 <= i < cur.len() && (#[trigger] cur[i]).is_match_multiple();
                    assert(more[i] == cur[i]);
                }
                if path_match_multiple(more) {
                    let i = choose|i: int|
                        0 <= i < more.len() && (#[trigger] more[i]).is_match_multiple();
                    if i < cur.len() {
                        assert(cur[i] == more[i]);
                    }
                }
            },
            ComponentView::AnyTree => {
                lemma_paths_some(seq![], true, rest);
                assert(is_wild_part(Ok(cs[0])));
            },
            _ => {
                lemma_paths_wild(cur, rest);
            },
        }
    }
}

proof fn lemma_paths_some(cur: Seq<SegmentView>, floating: bool, cs: Seq<ComponentView>)
    ensures
        paths_of(cur, floating, cs).len() >= 1,
    decreases cs.len(),
{
    if cs.len() > 0 {
        match cs[0] {
            ComponentView::Seg(s) => {
                lemma_paths_some(cur.push(s), floating, cs.skip(1));
            },
            ComponentView::AnyTree => {
                if floating && cur.len() == 0 {
                    lemma_paths_some(cur, true, cs.skip(1));
                }
            },
            _ => {
                lemma_paths_some(cur, floating, cs.skip(1));
            },
        }
    }
}

/// A glob may match more than one file exactly if its text has a wildcard that is not escaped.
pub proof fn law_wildcards(s: Seq<char>)
    ensures
        parsed(s) matches Ok(glob) ==> glob.is_match_multiple() == has_wildcard(s),
{
    if parsed(s) is Ok {
        let ts = lexed(s);
        let cs = segmented(s);
        let parent = |c: Part| is_parent(c);
        let below = |c: Part| is_below(c);
        let parents = run(cs, parent) as int;
        lemma_run(cs, parent);
        let rest = cs.skip(parents);
        let good = run(rest, below) as int;
        lemma_run(rest, below);
        let views = rest.map_values(|c: Part| c->Ok_0);
        assert(good == rest.len());
        assert forall|i: int| 0 <= i < cs.len() implies (#[trigger] cs[i]) is Ok by {
            if i < parents {
                assert(parent(cs[i]));
            } else {
                assert(rest[i - parents] == cs[i]);
                assert(below(rest[i - parents]));
            }
        }
        assert(cs == components_of(ts)) by {
            if cs != components_of(ts) {
                assert(cs[0] is Err);
            }
        }
        lemma_components_wild(ts);
        lemma_lexed_wild(s);
        assert(any_wild_part(cs) == any_wild_view(views)) by {
            if any_wild_part(cs) {
                let i = choose|i: int| 0 <= i < cs.len() && is_wild_part(#[trigger] cs[i]);
                if i < parents {
                    assert(parent(cs[i]));
                }
                assert(rest[i - parents] == cs[i]);
                assert(is_wild_part(Ok(views[i - parents])));
            }
            if any_wild_view(views) {
                let i = choose|i: int|
                    0 <= i < views.len() && is_wild_part(Ok(#[trigger] views[i]));
                assert(cs[parents + i] == rest[i]);
                assert(below(rest[i]));
                assert(is_wild_part(cs[parents + i]));
            }
        }
        lemma_paths_wild(seq![], views);
        assert(!path_match_multiple(seq![]));
        assert(parsed(s) == Ok::<GlobView, crate::glob::lex::GlobError>(
            glob_of(parents as nat, views),
        ));
    }
}

} // verus!
