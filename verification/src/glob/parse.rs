//! From the tokens of a glob to its segments, and from those to its paths.
use crate::glob::lex::{first_token, lemma_first_token, lex, lexed, GlobError, Token, TokenView};
use crate::glob::pattern::{str_patterns, FixedStr, Pattern, PatternView, Segment, SegmentView};
use crate::normal::{normalized, Normalized};
use crate::text::{lemma_run, lemma_run_is, run, view_result, view_results};
use vstd::prelude::*;

verus! {

/// A part of a glob's path.
#[derive(Debug)]
pub enum Component {
    /// A name to match.
    Seg(Segment),
    /// `..`
    Parent,
    /// `**`
    AnyTree,
    /// A separator that ends the path.
    TrailingSep,
}

#[verifier::ext_equal]
pub enum ComponentView {
    Seg(SegmentView),
    Parent,
    AnyTree,
    TrailingSep,
}

impl View for Component {
    type V = ComponentView;

    open spec fn view(&self) -> ComponentView {
        match self {
            Component::Seg(segment) => ComponentView::Seg(segment@),
            Component::Parent => ComponentView::Parent,
            Component::AnyTree => ComponentView::AnyTree,
            Component::TrailingSep => ComponentView::TrailingSep,
        }
    }
}

/// A token, or the error that ends a list of tokens.
pub type Lexeme = Result<TokenView, GlobError>;

/// The lexeme is part of a name: neither a separator nor a double wildcard nor an error.
pub open spec fn in_name(t: Lexeme) -> bool {
    t matches Ok(token) && token != TokenView::Sep && token != TokenView::AnyTree
}

/// The number of lexemes up to the end of the name that comes first.
pub open spec fn name_end(ts: Seq<Lexeme>) -> int {
    run(ts, |t: Lexeme| in_name(t)) as int
}

/// The tokens of a list of lexemes without errors.
pub open spec fn tokens_of(ts: Seq<Lexeme>) -> Seq<TokenView> {
    ts.map_values(|t: Lexeme| t->Ok_0)
}

/// The literals among a list of tokens, joined.
pub open spec fn joined_lits(ts: Seq<TokenView>) -> Seq<char> {
    ts.map_values(|t: TokenView| t->Lit_0).flatten()
}

/// The patterns for a list of literals and single wildcards. Literals that follow one another are
/// one pattern, and so are wildcards.
pub open spec fn patterns_of(ts: Seq<TokenView>) -> Seq<PatternView>
    decreases ts.len(),
{
    if ts.len() == 0 {
        seq![]
    } else if ts[0] is Lit {
        let n = run(ts, |t: TokenView| t is Lit);
        proof {
            lemma_run(ts, |t: TokenView| t is Lit);
        }
        seq![PatternView::Lit(normalized(joined_lits(ts.take(n as int))))] + patterns_of(
            ts.skip(n as int),
        )
    } else {
        let n = 1 + run(ts.skip(1), |t: TokenView| !(t is Lit));
        proof {
            lemma_run(ts.skip(1), |t: TokenView| !(t is Lit));
        }
        seq![PatternView::AnyGraphemes(n)] + patterns_of(ts.skip(n as int))
    }
}

/// The strings between the `*` of a name. Several `*` in a row are one.
pub open spec fn strs_of(ts: Seq<TokenView>) -> Seq<Seq<PatternView>>
    decreases ts.len(),
{
    let n = run(ts, |t: TokenView| !(t is AnyStr));
    proof {
        lemma_run(ts, |t: TokenView| !(t is AnyStr));
        lemma_run(ts.skip(n as int), |t: TokenView| t is AnyStr);
    }
    if n == ts.len() {
        seq![patterns_of(ts)]
    } else {
        let stars = run(ts.skip(n as int), |t: TokenView| t is AnyStr);
        seq![patterns_of(ts.take(n as int))] + strs_of(ts.skip((n + stars) as int))
    }
}

/// The segment for the tokens of a name.
pub open spec fn segment_of(ts: Seq<TokenView>) -> SegmentView {
    SegmentView { base: strs_of(ts)[0], floating: strs_of(ts).skip(1) }
}

/// The component for the tokens of a name. An empty name and `.` have none.
pub open spec fn component_of(ts: Seq<TokenView>) -> Option<ComponentView> {
    if ts.len() == 0 || ts == seq![TokenView::Lit(seq!['.'])] {
        None
    } else if ts == seq![TokenView::Lit(seq!['.', '.'])] {
        Some(ComponentView::Parent)
    } else {
        Some(ComponentView::Seg(segment_of(ts)))
    }
}

/// The components of a list of lexemes, up to the first error.
pub open spec fn components_of(ts: Seq<Lexeme>) -> Seq<Result<ComponentView, GlobError>>
    decreases ts.len(),
{
    let n = name_end(ts);
    proof {
        lemma_run(ts, |t: Lexeme| in_name(t));
    }
    let own: Seq<Result<ComponentView, GlobError>> = match component_of(
        tokens_of(ts.take(n)),
    ) {
        Some(c) => seq![Ok(c)],
        None => seq![],
    };
    if n == ts.len() {
        own
    } else {
        match ts[n] {
            Err(e) => seq![Err(e)],
            Ok(TokenView::Sep) => own + if n + 1 == ts.len() {
                seq![Ok(ComponentView::TrailingSep)]
            } else {
                components_of(ts.skip(n + 1))
            },
            Ok(_) => if n + 1 < ts.len() && ts[n + 1] is Ok && ts[n + 1] != Ok::<
                TokenView,
                GlobError,
            >(TokenView::Sep) {
                seq![Err(GlobError::AfterTree)]
            } else if n > 0 {
                seq![Err(GlobError::BeforeTree)]
            } else {
                seq![Ok(ComponentView::AnyTree)] + components_of(ts.skip(n + 1))
            },
        }
    }
}

/// The components of a glob, up to the first error. A leading separator is an error.
pub open spec fn segmented(s: Seq<char>) -> Seq<Result<ComponentView, GlobError>> {
    let ts = lexed(s);
    if ts.len() > 0 && ts[0] == Ok::<TokenView, GlobError>(TokenView::Sep) {
        seq![Err(GlobError::NotRelative)]
    } else {
        components_of(ts)
    }
}

fn is_lit(t: &Result<Token, GlobError>) -> (r: bool)
    requires
        t is Ok,
    ensures
        r == (t->Ok_0@ is Lit),
{
    match t {
        Ok(Token::Lit(_)) => true,
        _ => false,
    }
}

fn is_any_str(t: &Result<Token, GlobError>) -> (r: bool)
    requires
        t is Ok,
    ensures
        r == (t->Ok_0@ is AnyStr),
{
    match t {
        Ok(Token::AnyStr) => true,
        _ => false,
    }
}

/// The views of the tokens from `from` up to `to`.
spec fn token_range(tokens: Seq<Result<Token, GlobError>>, from: int, to: int) -> Seq<TokenView> {
    tokens_of(view_results(tokens).subrange(from, to))
}

/// The patterns for the literals and single wildcards from `from` up to `to`.
fn patterns(tokens: &Vec<Result<Token, GlobError>>, from: usize, to: usize) -> (r: FixedStr)
    requires
        from <= to <= tokens@.len(),
        forall|i: int| from <= i < to ==> #[trigger] tokens@[i] is Ok,
    ensures
        r@ == patterns_of(token_range(tokens@, from as int, to as int)),
{
    let ghost ts = token_range(tokens@, from as int, to as int);
    let mut patterns: Vec<Pattern> = Vec::new();
    let mut pos: usize = from;
    assert(ts.skip(0) == ts);
    while pos < to
        invariant
            from <= pos <= to <= tokens@.len(),
            forall|i: int| from <= i < to ==> #[trigger] tokens@[i] is Ok,
            ts == token_range(tokens@, from as int, to as int),
            patterns_of(ts) == patterns@.map_values(|p: Pattern| p@) + patterns_of(
                ts.skip(pos - from),
            ),
        decreases to - pos,
    {
        let ghost before = patterns@;
        let ghost rest = ts.skip(pos - from);
        assert(forall|i: int| 0 <= i < rest.len() ==> rest[i] == (#[trigger] tokens@[pos + i])->Ok_0@);
        assert(rest[0] == tokens@[pos as int]->Ok_0@);
        let mut end: usize = pos;
        if is_lit(&tokens[pos]) {
            let mut lit: Vec<char> = Vec::new();
            assert(rest.take(0).map_values(|t: TokenView| t->Lit_0) =~= Seq::<Seq<char>>::empty());
            while end < to && is_lit(&tokens[end])
                invariant
                    from <= pos <= end <= to <= tokens@.len(),
                    forall|i: int| from <= i < to ==> #[trigger] tokens@[i] is Ok,
                    rest.len() == to - pos,
                    forall|i: int|
                        0 <= i < rest.len() ==> rest[i] == (#[trigger] tokens@[pos + i])->Ok_0@,
                    forall|i: int| 0 <= i < end - pos ==> #[trigger] rest[i] is Lit,
                    lit@ == joined_lits(rest.take(end - pos)),
                decreases to - end,
            {
                proof {
                    assert(rest[end - pos] == tokens@[pos + (end - pos)]->Ok_0@);
                    let now = rest.take(end - pos + 1).map_values(|t: TokenView| t->Lit_0);
                    let then = rest.take(end - pos).map_values(|t: TokenView| t->Lit_0);
                    assert(now =~= then.push(rest[end - pos]->Lit_0));
                    then.lemma_flatten_push(rest[end - pos]->Lit_0);
                }
                if let Ok(Token::Lit(part)) = &tokens[end] {
                    let mut i: usize = 0;
                    let ghost start = lit@;
                    while i < part.len()
                        invariant
                            i <= part@.len(),
                            lit@ == start + part@.take(i as int),
                        decreases part@.len() - i,
                    {
                        lit.push(part[i]);
                        i += 1;
                    }
                    assert(part@.take(i as int) == part@);
                }
                end += 1;
            }
            proof {
                if end < to {
                    assert(rest[end - pos] == tokens@[pos + (end - pos)]->Ok_0@);
                }
                lemma_run_is(rest, |t: TokenView| t is Lit, (end - pos) as nat);
            }
            patterns.push(Pattern::Lit(Normalized::normalize(lit.as_slice())));
        } else {
            end += 1;
            while end < to && !is_lit(&tokens[end])
                invariant
                    from <= pos < end <= to <= tokens@.len(),
                    forall|i: int| from <= i < to ==> #[trigger] tokens@[i] is Ok,
                    rest.len() == to - pos,
                    forall|i: int|
                        0 <= i < rest.len() ==> rest[i] == (#[trigger] tokens@[pos + i])->Ok_0@,
                    forall|i: int| 0 <= i < end - pos ==> !(#[trigger] rest[i] is Lit),
                decreases to - end,
            {
                assert(rest[end - pos] == tokens@[pos + (end - pos)]->Ok_0@);
                end += 1;
            }
            proof {
                if end < to {
                    assert(rest[end - pos] == tokens@[pos + (end - pos)]->Ok_0@);
                }
                lemma_run_is(rest.skip(1), |t: TokenView| !(t is Lit), (end - pos - 1) as nat);
            }
            patterns.push(Pattern::AnyGraphemes(end - pos));
        }
        proof {
            let last = patterns@[patterns@.len() - 1]@;
            assert(patterns@.map_values(|p: Pattern| p@) =~= before.map_values(
                |p: Pattern| p@,
            ).push(last));
            assert(patterns_of(rest) == seq![last] + patterns_of(rest.skip(end - pos)));
            assert(rest.skip(end - pos) == ts.skip(end - from));
        }
        pos = end;
    }
    FixedStr { patterns }
}

/// The segment for the tokens of a name from `from` up to `to`.
fn name_segment(tokens: &Vec<Result<Token, GlobError>>, from: usize, to: usize) -> (r: Segment)
    requires
        from <= to <= tokens@.len(),
        forall|i: int| from <= i < to ==> #[trigger] tokens@[i] is Ok,
    ensures
        r@ == segment_of(token_range(tokens@, from as int, to as int)),
{
    let ghost ts = token_range(tokens@, from as int, to as int);
    let mut base: Option<FixedStr> = None;
    let mut floating: Vec<FixedStr> = Vec::new();
    let mut pos: usize = from;
    let ghost mut done: Seq<Seq<PatternView>> = seq![];
    assert(ts.skip(0) == ts);
    loop
        invariant_except_break
            strs_of(ts) == done + strs_of(ts.skip(pos - from)),
        invariant
            from <= pos <= to <= tokens@.len(),
            forall|i: int| from <= i < to ==> #[trigger] tokens@[i] is Ok,
            ts == token_range(tokens@, from as int, to as int),
            base is None <==> done.len() == 0,
            base is None ==> floating@.len() == 0,
            base matches Some(b) ==> done == seq![b@] + str_patterns(floating@),
        ensures
            base is Some,
            strs_of(ts) == done,
        decreases to - pos,
    {
        let ghost rest = ts.skip(pos - from);
        let ghost before = done;
        assert(forall|i: int| 0 <= i < rest.len() ==> rest[i] == (#[trigger] tokens@[pos + i])->Ok_0@);
        let mut end: usize = pos;
        while end < to && !is_any_str(&tokens[end])
            invariant
                from <= pos <= end <= to <= tokens@.len(),
                forall|i: int| from <= i < to ==> #[trigger] tokens@[i] is Ok,
                rest.len() == to - pos,
                forall|i: int|
                    0 <= i < rest.len() ==> rest[i] == (#[trigger] tokens@[pos + i])->Ok_0@,
                forall|i: int| 0 <= i < end - pos ==> !(#[trigger] rest[i] is AnyStr),
            decreases to - end,
        {
            assert(rest[end - pos] == tokens@[pos + (end - pos)]->Ok_0@);
            end += 1;
        }
        proof {
            if end < to {
                assert(rest[end - pos] == tokens@[pos + (end - pos)]->Ok_0@);
            }
            lemma_run_is(rest, |t: TokenView| !(t is AnyStr), (end - pos) as nat);
            assert(token_range(tokens@, pos as int, end as int) =~= rest.take(end - pos));
        }
        let fixed = patterns(tokens, pos, end);
        let ghost fixed_view = fixed@;
        if base.is_none() {
            base = Some(fixed);
            proof {
                done = seq![fixed_view];
                assert(str_patterns(floating@) =~= Seq::<Seq<PatternView>>::empty());
                assert(done =~= seq![base->Some_0@] + str_patterns(floating@));
                assert(before =~= Seq::<Seq<PatternView>>::empty());
            }
        } else {
            let ghost old_floating = floating@;
            floating.push(fixed);
            proof {
                done = done.push(fixed_view);
                assert(str_patterns(floating@) =~= str_patterns(old_floating).push(fixed_view));
            }
        }
        assert(done =~= before + seq![fixed_view]);
        if end == to {
            assert(rest.take(end - pos) == rest);
            assert(strs_of(ts) =~= done);
            break;
        }
        let mut stars: usize = end;
        while stars < to && is_any_str(&tokens[stars])
            invariant
                from <= pos <= end <= stars <= to <= tokens@.len(),
                forall|i: int| from <= i < to ==> #[trigger] tokens@[i] is Ok,
                rest.len() == to - pos,
                forall|i: int|
                    0 <= i < rest.len() ==> rest[i] == (#[trigger] tokens@[pos + i])->Ok_0@,
                forall|i: int| end - pos <= i < stars - pos ==> #[trigger] rest[i] is AnyStr,
            decreases to - stars,
        {
            assert(rest[stars - pos] == tokens@[pos + (stars - pos)]->Ok_0@);
            stars += 1;
        }
        proof {
            let behind = rest.skip(end - pos);
            if stars < to {
                assert(rest[stars - pos] == tokens@[pos + (stars - pos)]->Ok_0@);
            }
            lemma_run_is(behind, |t: TokenView| t is AnyStr, (stars - end) as nat);
            assert(rest[end - pos] == tokens@[pos + (end - pos)]->Ok_0@);
            assert(rest.skip(stars - pos) == ts.skip(stars - from));
            assert(strs_of(rest) == seq![fixed_view] + strs_of(rest.skip(stars - pos)));
        }
        pos = stars;
    }
    let base_str = base.unwrap();
    proof {
        assert(str_patterns(floating@) =~= strs_of(ts).skip(1));
    }
    Segment { base_str, floating_strs: floating }
}

/// Whether the token is the given literal of one or two dots.
fn is_dots(t: &Result<Token, GlobError>, n: usize) -> (r: bool)
    requires
        t is Ok,
        n == 1 || n == 2,
    ensures
        r == (t->Ok_0@ == TokenView::Lit(Seq::new(n as nat, |i: int| '.'))),
{
    match t {
        Ok(Token::Lit(lit)) => {
            let r = lit.len() == n && lit[0] == '.' && lit[n - 1] == '.';
            proof {
                if r {
                    assert(lit@ =~= Seq::new(n as nat, |i: int| '.'));
                } else if lit@ == Seq::new(n as nat, |i: int| '.') {
                    assert(lit@[0] == '.' && lit@[n - 1] == '.');
                }
            }
            r
        },
        _ => false,
    }
}

/// The component for the tokens of a name from `from` up to `to`.
fn name_component(tokens: &Vec<Result<Token, GlobError>>, from: usize, to: usize) -> (r: Option<
    Component,
>)
    requires
        from <= to <= tokens@.len(),
        forall|i: int| from <= i < to ==> #[trigger] tokens@[i] is Ok,
    ensures
        match r {
            Some(c) => component_of(token_range(tokens@, from as int, to as int)) == Some(c@),
            None => component_of(token_range(tokens@, from as int, to as int)) is None,
        },
{
    let ghost ts = token_range(tokens@, from as int, to as int);
    proof {
        assert(seq!['.'] =~= Seq::new(1, |i: int| '.'));
        assert(seq!['.', '.'] =~= Seq::new(2, |i: int| '.'));
    }
    if from == to {
        return None;
    }
    assert(ts[0] == tokens@[from as int]->Ok_0@);
    if to - from == 1 {
        if is_dots(&tokens[from], 1) {
            assert(ts =~= seq![TokenView::Lit(seq!['.'])]);
            return None;
        }
        if is_dots(&tokens[from], 2) {
            assert(ts =~= seq![TokenView::Lit(seq!['.', '.'])]);
            assert(seq!['.', '.'].len() == 2);
            return Some(Component::Parent);
        }
    }
    Some(Component::Seg(name_segment(tokens, from, to)))
}

/// Splits a glob into the components of its path. The list ends at the first error, if there is
/// one.
pub fn segment(glob: &str) -> (components: Vec<Result<Component, GlobError>>)
    ensures
        view_results(components@) == segmented(glob@),
{
    let tokens = lex(glob);
    let ghost ts = view_results(tokens@);
    let mut components: Vec<Result<Component, GlobError>> = Vec::new();
    if tokens.len() > 0 {
        assert(ts[0] == view_result(tokens@[0]));
        if let Ok(Token::Sep) = &tokens[0] {
            components.push(Err(GlobError::NotRelative));
            assert(view_results(components@) =~= segmented(glob@));
            return components;
        }
    }
    let mut pos: usize = 0;
    assert(ts.skip(0) == ts);
    assert(view_results(components@) =~= seq![]);
    while pos < tokens.len()
        invariant
            ts == view_results(tokens@),
            ts == lexed(glob@),
            segmented(glob@) == components_of(ts),
            pos <= tokens@.len(),
            components_of(ts) == view_results(components@) + components_of(ts.skip(pos as int)),
        decreases tokens@.len() - pos,
    {
        let ghost rest = ts.skip(pos as int);
        let ghost before = view_results(components@);
        assert(forall|i: int|
            0 <= i < rest.len() ==> rest[i] == view_result(#[trigger] tokens@[pos + i]));
        let mut end: usize = pos;
        while end < tokens.len() && in_name_token(&tokens[end])
            invariant
                pos <= end <= tokens@.len(),
                rest.len() == tokens@.len() - pos,
                forall|i: int|
                    0 <= i < rest.len() ==> rest[i] == view_result(
                        #[trigger] tokens@[pos + i],
                    ),
                forall|i: int| 0 <= i < end - pos ==> in_name(#[trigger] rest[i]),
            decreases tokens@.len() - end,
        {
            assert(rest[end - pos] == view_result(tokens@[pos + (end - pos)]));
            end += 1;
        }
        proof {
            if end < tokens@.len() {
                assert(rest[end - pos] == view_result(tokens@[pos + (end - pos)]));
            }
            lemma_run_is(rest, |t: Lexeme| in_name(t), (end - pos) as nat);
            assert forall|i: int| pos <= i < end implies #[trigger] tokens@[i] is Ok by {
                assert(in_name(rest[i - pos]));
                assert(rest[i - pos] == view_result(tokens@[pos + (i - pos)]));
            }
            assert(token_range(tokens@, pos as int, end as int) =~= tokens_of(
                rest.take(end - pos),
            ));
        }
        if end < tokens.len() {
            match &tokens[end] {
                Err(e) => {
                    components.push(Err(*e));
                    assert(view_results(components@) =~= before.push(Err(*e)));
                    return components;
                },
                Ok(Token::AnyTree) => {
                    if end + 1 < tokens.len() {
                        assert(rest[end - pos + 1] == view_result(
                            tokens@[pos + (end - pos + 1)],
                        ));
                        let allowed = match &tokens[end + 1] {
                            Ok(Token::Sep) => true,
                            Ok(_) => false,
                            Err(_) => true,
                        };
                        if !allowed {
                            components.push(Err(GlobError::AfterTree));
                            assert(view_results(components@) =~= before.push(
                                Err(GlobError::AfterTree),
                            ));
                            return components;
                        }
                    }
                    if end > pos {
                        components.push(Err(GlobError::BeforeTree));
                        assert(view_results(components@) =~= before.push(
                            Err(GlobError::BeforeTree),
                        ));
                        return components;
                    }
                    components.push(Ok(Component::AnyTree));
                    proof {
                        assert(view_results(components@) =~= before.push(
                            Ok(ComponentView::AnyTree),
                        ));
                        assert(rest.skip(1) == ts.skip(end + 1));
                    }
                    pos = end + 1;
                    continue;
                },
                _ => {},
            }
        }
        let own = name_component(&tokens, pos, end);
        let ghost own_view: Seq<Result<ComponentView, GlobError>> = match component_of(
            tokens_of(rest.take(end - pos)),
        ) {
            Some(c) => seq![Ok(c)],
            None => seq![],
        };
        match own {
            Some(c) => {
                components.push(Ok(c));
                assert(view_results(components@) =~= before + own_view);
            },
            None => {
                assert(view_results(components@) =~= before + own_view);
            },
        }
        if end == tokens.len() {
            return components;
        }
        assert(rest[end - pos] == Ok::<TokenView, GlobError>(TokenView::Sep));
        if end + 1 == tokens.len() {
            components.push(Ok(Component::TrailingSep));
            assert(view_results(components@) =~= before + own_view + seq![
                Ok::<ComponentView, GlobError>(ComponentView::TrailingSep),
            ]);
            return components;
        }
        proof {
            assert(rest.skip(end - pos + 1) == ts.skip(end + 1));
            assert(components_of(ts) =~= view_results(components@) + components_of(
                ts.skip(end + 1),
            ));
        }
        pos = end + 1;
    }
    assert(components_of(ts.skip(pos as int)) =~= seq![]);
    components
}

fn in_name_token(t: &Result<Token, GlobError>) -> (r: bool)
    ensures
        r == in_name(view_result(*t)),
{
    match t {
        Ok(Token::Sep) => false,
        Ok(Token::AnyTree) => false,
        Ok(_) => true,
        Err(_) => false,
    }
}

/// Segments that follow one another, a directory level each.
#[derive(Debug)]
pub struct FixedPath {
    pub segments: Vec<Segment>,
}

/// A parsed glob.
#[derive(Debug)]
pub struct Glob {
    /// How many levels up the match starts.
    pub parent_segs: usize,
    /// The path from where the match starts.
    pub base_path: FixedPath,
    /// The paths that follow, at any depth below the path before.
    pub floating_paths: Vec<FixedPath>,
    /// Whether the glob ends with a separator.
    pub trailing_sep: bool,
}

#[verifier::ext_equal]
pub struct GlobView {
    pub parent_segs: nat,
    pub base: Seq<SegmentView>,
    pub floating: Seq<Seq<SegmentView>>,
    pub trailing_sep: bool,
}

/// What each of a list of segments holds.
pub open spec fn segment_views(v: Seq<Segment>) -> Seq<SegmentView> {
    v.map_values(|s: Segment| s@)
}

impl View for FixedPath {
    type V = Seq<SegmentView>;

    open spec fn view(&self) -> Seq<SegmentView> {
        segment_views(self.segments@)
    }
}

/// What each of a list of paths holds.
pub open spec fn path_views(v: Seq<FixedPath>) -> Seq<Seq<SegmentView>> {
    v.map_values(|p: FixedPath| p@)
}

impl View for Glob {
    type V = GlobView;

    open spec fn view(&self) -> GlobView {
        GlobView {
            parent_segs: self.parent_segs as nat,
            base: self.base_path@,
            floating: path_views(self.floating_paths@),
            trailing_sep: self.trailing_sep,
        }
    }
}

/// The segment `*`, which matches every name.
pub open spec fn any_name() -> SegmentView {
    SegmentView { base: seq![], floating: seq![Seq::<PatternView>::empty()] }
}

/// The paths between the `**` of a list of components, given the segments `cur` of the path that
/// the list goes on with and whether a `**` comes before that path. Several `**` in a row are one,
/// and a `**` that ends the list is followed by `*`.
pub open spec fn paths_of(cur: Seq<SegmentView>, floating: bool, cs: Seq<ComponentView>) -> Seq<
    Seq<SegmentView>,
>
    decreases cs.len(),
{
    if cs.len() == 0 {
        if floating && cur.len() == 0 {
            seq![seq![any_name()]]
        } else {
            seq![cur]
        }
    } else {
        match cs[0] {
            ComponentView::Seg(s) => paths_of(cur.push(s), floating, cs.skip(1)),
            ComponentView::AnyTree => if floating && cur.len() == 0 {
                paths_of(cur, true, cs.skip(1))
            } else {
                seq![cur] + paths_of(seq![], true, cs.skip(1))
            },
            _ => paths_of(cur, floating, cs.skip(1)),
        }
    }
}

/// The glob that a list of components without errors describes, behind `parents` parent segments.
pub open spec fn glob_of(parents: nat, cs: Seq<ComponentView>) -> GlobView {
    let paths = paths_of(seq![], false, cs);
    GlobView {
        parent_segs: parents,
        base: paths[0],
        floating: paths.skip(1),
        trailing_sep: cs.contains(ComponentView::TrailingSep),
    }
}

/// A component, or the error that ends a list of components.
pub type Part = Result<ComponentView, GlobError>;

pub open spec fn is_parent(c: Part) -> bool {
    c == Ok::<ComponentView, GlobError>(ComponentView::Parent)
}

/// The component may stand behind the leading parent segments.
pub open spec fn is_below(c: Part) -> bool {
    c is Ok && !is_parent(c)
}

/// The glob that a text describes. Behind the leading parent segments, the first error or parent
/// segment is what is wrong with it.
pub open spec fn parsed(s: Seq<char>) -> Result<GlobView, GlobError> {
    if s.len() == 0 {
        Err(GlobError::Empty)
    } else {
        let cs = segmented(s);
        let parents = run(cs, |c: Part| is_parent(c));
        let rest = cs.skip(parents as int);
        let good = run(rest, |c: Part| is_below(c));
        if good < rest.len() {
            match rest[good as int] {
                Err(e) => Err(e),
                Ok(_) => Err(GlobError::MisplacedParent),
            }
        } else {
            Ok(glob_of(parents, rest.map_values(|c: Part| c->Ok_0)))
        }
    }
}

/// A pattern that matches clusters at all matches at least one.
pub open spec fn positive(patterns: Seq<PatternView>) -> bool {
    forall|i: int|
        0 <= i < patterns.len() ==> (#[trigger] patterns[i] matches PatternView::AnyGraphemes(n)
            ==> n >= 1)
}

impl SegmentView {
    pub open spec fn well_formed(self) -> bool {
        &&& positive(self.base)
        &&& forall|i: int| 0 <= i < self.floating.len() ==> positive(#[trigger] self.floating[i])
    }
}

/// Every segment of a path is well-formed.
pub open spec fn path_well_formed(path: Seq<SegmentView>) -> bool {
    forall|i: int| 0 <= i < path.len() ==> (#[trigger] path[i]).well_formed()
}

impl GlobView {
    /// Every segment is well-formed, and no path behind a `**` is empty.
    pub open spec fn well_formed(self) -> bool {
        &&& path_well_formed(self.base)
        &&& forall|i: int|
            0 <= i < self.floating.len() ==> path_well_formed(#[trigger] self.floating[i])
                && self.floating[i].len() > 0
    }

    /// The glob has a wildcard.
    pub open spec fn is_match_multiple(self) -> bool {
        self.floating.len() > 0 || path_match_multiple(self.base)
    }
}

/// Some segment of the path has a wildcard.
pub open spec fn path_match_multiple(path: Seq<SegmentView>) -> bool {
    exists|i: int| 0 <= i < path.len() && (#[trigger] path[i]).is_match_multiple()
}

proof fn lemma_patterns_positive(ts: Seq<TokenView>)
    ensures
        positive(patterns_of(ts)),
    decreases ts.len(),
{
    if ts.len() > 0 {
        lemma_run(ts, |t: TokenView| t is Lit);
        lemma_run(ts.skip(1), |t: TokenView| !(t is Lit));
        if ts[0] is Lit {
            lemma_patterns_positive(ts.skip(run(ts, |t: TokenView| t is Lit) as int));
        } else {
            lemma_patterns_positive(
                ts.skip((1 + run(ts.skip(1), |t: TokenView| !(t is Lit))) as int),
            );
        }
    }
}

proof fn lemma_strs_positive(ts: Seq<TokenView>)
    ensures
        strs_of(ts).len() >= 1,
        forall|i: int| 0 <= i < strs_of(ts).len() ==> positive(#[trigger] strs_of(ts)[i]),
    decreases ts.len(),
{
    let n = run(ts, |t: TokenView| !(t is AnyStr));
    lemma_run(ts, |t: TokenView| !(t is AnyStr));
    lemma_run(ts.skip(n as int), |t: TokenView| t is AnyStr);
    if n == ts.len() {
        lemma_patterns_positive(ts);
    } else {
        let stars = run(ts.skip(n as int), |t: TokenView| t is AnyStr);
        lemma_patterns_positive(ts.take(n as int));
        lemma_strs_positive(ts.skip((n + stars) as int));
    }
}

/// Every segment among a list of components is well-formed.
spec fn parts_well_formed(cs: Seq<Part>) -> bool {
    forall|i: int|
        0 <= i < cs.len() ==> (#[trigger] cs[i] matches Ok(ComponentView::Seg(s)) ==> s.well_formed())
}

proof fn lemma_components_well_formed(ts: Seq<Lexeme>)
    ensures
        parts_well_formed(components_of(ts)),
        components_of(ts).len() <= ts.len(),
    decreases ts.len(),
{
    let n = name_end(ts);
    lemma_run(ts, |t: Lexeme| in_name(t));
    let name = tokens_of(ts.take(n));
    lemma_strs_positive(name);
    assert(segment_of(name).well_formed());
    if n < ts.len() {
        lemma_components_well_formed(ts.skip(n + 1));
    }
}

/// A text has no more components than characters.
pub proof fn lemma_segmented(s: Seq<char>)
    ensures
        segmented(s).len() <= s.len(),
    decreases s.len(),
{
    lemma_lexed_len(s);
    lemma_components_well_formed(lexed(s));
}

proof fn lemma_lexed_len(s: Seq<char>)
    ensures
        lexed(s).len() <= s.len(),
    decreases s.len(),
{
    if s.len() > 0 {
        lemma_first_token(s);
        if let Ok((_, width)) = first_token(s) {
            lemma_lexed_len(s.skip(width as int));
        }
    }
}

proof fn lemma_paths(cur: Seq<SegmentView>, floating: bool, cs: Seq<ComponentView>)
    requires
        path_well_formed(cur),
        forall|i: int|
            0 <= i < cs.len() ==> (#[trigger] cs[i] matches ComponentView::Seg(s)
                ==> s.well_formed()),
    ensures
        paths_of(cur, floating, cs).len() >= 1,
        forall|i: int|
            0 <= i < paths_of(cur, floating, cs).len() ==> path_well_formed(
                #[trigger] paths_of(cur, floating, cs)[i],
            ) && ((i > 0 || floating) ==> paths_of(cur, floating, cs)[i].len() > 0)
                && (paths_of(cur, floating, cs)[i].len() == 1 || paths_of(cur, floating, cs)[i].len()
                <= cur.len() + cs.len()),
    decreases cs.len(),
{
    if cs.len() == 0 {
        assert(positive(Seq::<PatternView>::empty()));
        assert(any_name().well_formed());
    } else {
        assert(cs.skip(1).len() == cs.len() - 1);
        match cs[0] {
            ComponentView::Seg(s) => {
                lemma_paths(cur.push(s), floating, cs.skip(1));
            },
            ComponentView::AnyTree => {
                if floating && cur.len() == 0 {
                    lemma_paths(cur, true, cs.skip(1));
                } else {
                    lemma_paths(seq![], true, cs.skip(1));
                    let later = paths_of(seq![], true, cs.skip(1));
                    let all = paths_of(cur, floating, cs);
                    assert(forall|i: int| 0 < i < all.len() ==> #[trigger] all[i] == later[i - 1]);
                }
            },
            _ => {
                lemma_paths(cur, floating, cs.skip(1));
            },
        }
    }
}

/// A text only ever describes a well-formed glob, with no more segments in a path than the text has
/// characters.
pub proof fn law_parsed_well_formed(s: Seq<char>)
    ensures
        parsed(s) matches Ok(glob) ==> glob.well_formed() && forall|i: int|
            0 <= i < glob.floating.len() ==> (#[trigger] glob.floating[i]).len() <= s.len(),
{
    if parsed(s) is Ok {
        let cs = segmented(s);
        lemma_segmented(s);
        lemma_components_well_formed(lexed(s));
        let parents = run(cs, |c: Part| is_parent(c));
        lemma_run(cs, |c: Part| is_parent(c));
        let rest = cs.skip(parents as int);
        let views = rest.map_values(|c: Part| c->Ok_0);
        lemma_run(rest, |c: Part| is_below(c));
        assert forall|i: int| 0 <= i < views.len() implies (#[trigger] views[i] matches ComponentView::Seg(
            s,
        ) ==> s.well_formed()) by {
            assert(is_below(rest[i]));
            assert(rest[i] == cs[parents + i]);
        }
        lemma_paths(seq![], false, views);
        let paths = paths_of(seq![], false, views);
        assert(forall|i: int| 0 <= i < paths.skip(1).len() ==> #[trigger] paths.skip(1)[i] == paths[i + 1]);
    }
}

fn any_name_segment() -> (r: Segment)
    ensures
        r@ == any_name(),
{
    let mut floating_strs: Vec<FixedStr> = Vec::new();
    floating_strs.push(FixedStr { patterns: Vec::new() });
    let r = Segment { base_str: FixedStr { patterns: Vec::new() }, floating_strs };
    assert(r.base_str@ =~= seq![]);
    assert(r.floating_strs@[0]@ =~= seq![]);
    assert(r@.floating =~= any_name().floating);
    r
}

/// Parses a glob.
pub fn parse(glob: &str) -> (r: Result<Glob, GlobError>)
    ensures
        view_result(r) == parsed(glob@),
        r matches Ok(g) ==> g@.well_formed(),
{
    proof {
        law_parsed_well_formed(glob@);
    }
    if glob.is_empty() {
        return Err(GlobError::Empty);
    }
    let components = segment(glob);
    let ghost cs = view_results(components@);
    assert(forall|i: int| 0 <= i < cs.len() ==> cs[i] == view_result(#[trigger] components@[i]));
    let mut parents: usize = 0;
    while parents < components.len() && is_parent_component(&components[parents])
        invariant
            cs == view_results(components@),
            parents <= components@.len(),
            forall|i: int| 0 <= i < parents ==> is_parent(#[trigger] cs[i]),
        decreases components@.len() - parents,
    {
        assert(cs[parents as int] == view_result(components@[parents as int]));
        parents += 1;
    }
    let ghost rest = cs.skip(parents as int);
    proof {
        if parents < components@.len() {
            assert(cs[parents as int] == view_result(components@[parents as int]));
        }
        lemma_run_is(cs, |c: Part| is_parent(c), parents as nat);
    }
    let mut i: usize = parents;
    while i < components.len()
        invariant
            cs == view_results(components@),
            cs == segmented(glob@),
            glob@.len() > 0,
            parents <= i <= components@.len(),
            parents == run(cs, |c: Part| is_parent(c)),
            rest == cs.skip(parents as int),
            forall|j: int| 0 <= j < i - parents ==> is_below(#[trigger] rest[j]),
        decreases components@.len() - i,
    {
        proof {
            assert(cs[i as int] == view_result(components@[i as int]));
            assert(rest[i - parents] == cs[i as int]);
        }
        match &components[i] {
            Err(e) => {
                proof {
                    lemma_run_is(rest, |c: Part| is_below(c), (i - parents) as nat);
                }
                return Err(*e);
            },
            Ok(Component::Parent) => {
                proof {
                    lemma_run_is(rest, |c: Part| is_below(c), (i - parents) as nat);
                }
                return Err(GlobError::MisplacedParent);
            },
            Ok(_) => {},
        }
        i += 1;
    }
    proof {
        lemma_run_is(rest, |c: Part| is_below(c), rest.len());
    }
    Ok(assemble(components, parents, Ghost(rest.map_values(|c: Part| c->Ok_0))))
}

fn is_parent_component(c: &Result<Component, GlobError>) -> (r: bool)
    ensures
        r == is_parent(view_result(*c)),
{
    match c {
        Ok(Component::Parent) => true,
        _ => false,
    }
}

/// Puts the components behind the leading parent segments together.
fn assemble(
    components: Vec<Result<Component, GlobError>>,
    parents: usize,
    Ghost(views): Ghost<Seq<ComponentView>>,
) -> (r: Glob)
    requires
        parents <= components@.len(),
        views.len() == components@.len() - parents,
        forall|i: int|
            0 <= i < views.len() ==> view_result(#[trigger] components@[parents + i]) == Ok::<
                ComponentView,
                GlobError,
            >(views[i]),
    ensures
        r@ == glob_of(parents as nat, views),
{
    let ghost all = components@;
    let len = components.len();
    let mut base: Option<FixedPath> = None;
    let mut floating_paths: Vec<FixedPath> = Vec::new();
    let mut segments: Vec<Segment> = Vec::new();
    let mut trailing_sep = false;
    let ghost mut done: Seq<Seq<SegmentView>> = seq![];
    let mut index: usize = 0;
    proof {
        assert(views.skip(0) == views);
        assert(segment_views(segments@) =~= seq![]);
        assert(path_views(floating_paths@) =~= seq![]);
        assert(paths_of(seq![], false, views) =~= done + paths_of(seq![], false, views));
    }
    for c in it: components
        invariant
            it.seq() == all,
            index == it.index(),
            parents <= all.len() == len,
            views.len() == all.len() - parents,
            forall|i: int|
                0 <= i < views.len() ==> view_result(#[trigger] all[parents + i]) == Ok::<
                    ComponentView,
                    GlobError,
                >(views[i]),
            base is None <==> done.len() == 0,
            base is None ==> floating_paths@.len() == 0,
            base matches Some(b) ==> done == seq![b@] + path_views(floating_paths@),
            index <= parents ==> {
                &&& done.len() == 0
                &&& segment_views(segments@) == Seq::<SegmentView>::empty()
                &&& !trailing_sep
            },
            index >= parents ==> {
                &&& paths_of(seq![], false, views) == done + paths_of(
                    segment_views(segments@),
                    base is Some,
                    views.skip(index - parents),
                )
                &&& trailing_sep == views.take(index - parents).contains(
                    ComponentView::TrailingSep,
                )
            },
    {
        let ghost old_segments = segment_views(segments@);
        let ghost k = index - parents;
        index += 1;
        proof {
            if index == parents {
                assert(views.skip(0) == views);
                assert(done =~= seq![]);
                assert(segment_views(segments@) =~= seq![]);
                assert(paths_of(seq![], false, views) =~= done + paths_of(seq![], false, views));
            }
        }
        if index > parents {
            let ghost rest = views.skip(k);
            proof {
                assert(all[parents + k] == c);
                assert(rest.skip(1) == views.skip(k + 1));
                assert(rest[0] == views[k]);
                assert(views.take(k + 1) =~= views.take(k).push(views[k]));
                assert forall|x: ComponentView|
                    views.take(k + 1).contains(x) == (views.take(k).contains(x) || x == views[k]) by {
                    if views.take(k).contains(x) {
                        let j = choose|j: int| 0 <= j < k && views.take(k)[j] == x;
                        assert(views.take(k + 1)[j] == x);
                    }
                    if x == views[k] {
                        assert(views.take(k + 1)[k] == x);
                    }
                }
            }
            match c {
                Ok(Component::Seg(segment)) => {
                    let ghost view = segment@;
                    segments.push(segment);
                    assert(segment_views(segments@) =~= old_segments.push(view));
                },
                Ok(Component::AnyTree) => {
                    if base.is_none() || segments.len() > 0 {
                        let ghost before = done;
                        let path = FixedPath { segments };
                        segments = Vec::new();
                        assert(segment_views(segments@) =~= seq![]);
                        if base.is_none() {
                            base = Some(path);
                            proof {
                                done = seq![old_segments];
                                assert(path_views(floating_paths@) =~= seq![]);
                                assert(done =~= seq![base->Some_0@] + path_views(floating_paths@));
                            }
                        } else {
                            let ghost old_paths = path_views(floating_paths@);
                            floating_paths.push(path);
                            proof {
                                done = done.push(old_segments);
                                assert(path_views(floating_paths@) =~= old_paths.push(old_segments));
                            }
                        }
                        proof {
                            assert(done =~= before + seq![old_segments]);
                            assert(paths_of(seq![], false, views) =~= done + paths_of(
                                seq![],
                                true,
                                views.skip(k + 1),
                            ));
                        }
                    } else {
                        assert(old_segments =~= seq![]);
                    }
                },
                Ok(Component::TrailingSep) => {
                    trailing_sep = true;
                },
                _ => {},
            }
        }
    }
    proof {
        assert(views.take(views.len() as int) == views);
        assert(views.skip(views.len() as int).len() == 0);
    }
    let ghost before = done;
    let ghost paths = paths_of(seq![], false, views);
    if base.is_some() && segments.len() == 0 {
        segments.push(any_name_segment());
        assert(segment_views(segments@) =~= seq![any_name()]);
    }
    let path = FixedPath { segments };
    match base {
        None => {
            proof {
                assert(paths =~= seq![path@]);
                assert(path_views(floating_paths@) =~= paths.skip(1));
            }
            Glob { parent_segs: parents, base_path: path, floating_paths, trailing_sep }
        },
        Some(base_path) => {
            let ghost old_paths = path_views(floating_paths@);
            let ghost last = path@;
            floating_paths.push(path);
            proof {
                assert(path_views(floating_paths@) =~= old_paths.push(last));
                assert(paths =~= before.push(last));
                assert(path_views(floating_paths@) =~= paths.skip(1));
            }
            Glob { parent_segs: parents, base_path, floating_paths, trailing_sep }
        },
    }
}

impl FixedPath {
    /// Whether some segment matches more than one name.
    pub fn is_match_multiple(&self) -> (r: bool)
        ensures
            r == path_match_multiple(self@),
    {
        let mut i: usize = 0;
        while i < self.segments.len()
            invariant
                i <= self.segments@.len(),
                forall|j: int| 0 <= j < i ==> !(#[trigger] self@[j]).is_match_multiple(),
            decreases self.segments@.len() - i,
        {
            if self.segments[i].is_match_multiple() {
                assert(self@[i as int].is_match_multiple());
                return true;
            }
            i += 1;
        }
        false
    }
}

impl Glob {
    /// Whether the glob may match more than one file.
    pub fn is_match_multiple(&self) -> (r: bool)
        ensures
            r == self@.is_match_multiple(),
    {
        self.floating_paths.len() > 0 || self.base_path.is_match_multiple()
    }
}

/// A name without wildcards is one literal, so that it matches one name and its variants only.
pub proof fn law_literal_segment(ts: Seq<TokenView>)
    requires
        ts.len() > 0,
        !segment_of(ts).is_match_multiple(),
    ensures
        segment_of(ts) == (SegmentView {
            base: seq![PatternView::Lit(normalized(joined_lits(ts)))],
            floating: seq![],
        }),
{
    let n = run(ts, |t: TokenView| !(t is AnyStr));
    lemma_run(ts, |t: TokenView| !(t is AnyStr));
    lemma_run(ts.skip(n as int), |t: TokenView| t is AnyStr);
    if n < ts.len() {
        let stars = run(ts.skip(n as int), |t: TokenView| t is AnyStr);
        lemma_strs_positive(ts.skip((n + stars) as int));
        assert(strs_of(ts).len() >= 2);
        assert(segment_of(ts).floating.len() > 0);
    }
    let base = patterns_of(ts);
    assert(strs_of(ts) =~= seq![base]);
    assert(segment_of(ts).floating =~= seq![]);
    let k = run(ts, |t: TokenView| t is Lit);
    lemma_run(ts, |t: TokenView| t is Lit);
    if k == 0 {
        assert(base[0] is AnyGraphemes);
    } else if k < ts.len() {
        let rest = ts.skip(k as int);
        assert(!(rest[0] is Lit));
        assert(patterns_of(rest)[0] is AnyGraphemes);
        assert(base[1] == patterns_of(rest)[0]);
        assert(base[1] is AnyGraphemes);
    } else {
        assert(ts.take(k as int) =~= ts);
        assert(patterns_of(ts.skip(k as int)) =~= seq![]);
        assert(base =~= seq![PatternView::Lit(normalized(joined_lits(ts)))]);
    }
}

/// A glob has to say something, and may not start at the root.
pub proof fn law_not_relative(rest: Seq<char>)
    ensures
        parsed(seq![]) == Err::<GlobView, GlobError>(GlobError::Empty),
        parsed(seq!['/'] + rest) == Err::<GlobView, GlobError>(GlobError::NotRelative),
{
    let text = seq!['/'] + rest;
    assert(text[0] == '/');
    let cs = segmented(text);
    assert(lexed(text)[0] == Ok::<TokenView, GlobError>(TokenView::Sep));
    assert(cs == seq![Err::<ComponentView, GlobError>(GlobError::NotRelative)]);
    lemma_run_is(cs, |c: Part| is_parent(c), 0);
    assert(cs.skip(0) =~= cs);
    lemma_run_is(cs, |c: Part| is_below(c), 0);
}

} // verus!
