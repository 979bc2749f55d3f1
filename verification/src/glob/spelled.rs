//! What the parts of a glob between its separators stand for.
use crate::ascii::is_plain;
use crate::glob::lex;
use crate::glob::lex::{first_token, lemma_first_token, lexed, GlobError, TokenView};
use crate::glob::parse::{
    any_name, component_of, components_of, glob_of, in_name, is_below, is_parent, parsed, paths_of,
    segment_of, segmented, tokens_of, ComponentView, Lexeme, Part,
};
use crate::glob::pattern::SegmentView;
use crate::glob::plain::matches_plain;
use crate::glob::separators::{is_lexed, lemma_lexed_sep, sep};
use crate::glob::wild::{is_name_glob, is_small_normal, law_lexed, law_wild, wild};
use crate::text::{lemma_run_is, run};
use vstd::prelude::*;

verus! {

/// A part of a glob between two separators.
pub enum Piece {
    /// The glob of a name.
    Name(Seq<char>),
    /// `..`.
    Parent,
    /// `**`.
    Tree,
}

/// What a part is written as.
pub open spec fn piece_text(piece: Piece) -> Seq<char> {
    match piece {
        Piece::Name(glob) => glob,
        Piece::Parent => seq!['.', '.'],
        Piece::Tree => seq!['*', '*'],
    }
}

/// What is written for a name is the glob of one, and is not empty, `.` or `..`.
pub open spec fn is_piece(piece: Piece) -> bool {
    piece matches Piece::Name(glob) ==> {
        &&& is_plain(glob)
        &&& is_name_glob(glob)
        &&& glob.len() > 0
        &&& glob != seq!['.']
        &&& glob != seq!['.', '.']
    }
}

/// The parts with a separator between each two.
pub open spec fn spelled(pieces: Seq<Piece>) -> Seq<char>
    decreases pieces.len(),
{
    if pieces.len() == 0 {
        seq![]
    } else if pieces.len() == 1 {
        piece_text(pieces[0])
    } else {
        piece_text(pieces[0]) + seq!['/'] + spelled(pieces.skip(1))
    }
}

/// The segment that the glob of a name stands for.
pub open spec fn name_segment(glob: Seq<char>) -> SegmentView {
    segment_of(tokens_of(lexed(glob)))
}

/// What a part stands for.
pub open spec fn piece_component(piece: Piece) -> ComponentView {
    match piece {
        Piece::Name(glob) => ComponentView::Seg(name_segment(glob)),
        Piece::Parent => ComponentView::Parent,
        Piece::Tree => ComponentView::AnyTree,
    }
}

/// The tokens of a part that is no tree are those of a name.
proof fn lemma_piece_tokens(piece: Piece)
    requires
        is_piece(piece),
        !(piece is Tree),
    ensures
        is_lexed(piece_text(piece)),
        lexed(piece_text(piece)).len() > 0,
        forall|i: int|
            0 <= i < lexed(piece_text(piece)).len() ==> in_name(
                #[trigger] lexed(piece_text(piece))[i],
            ),
        component_of(tokens_of(lexed(piece_text(piece)))) == Some(piece_component(piece)),
{
    let text = piece_text(piece);
    let ts = lexed(text);
    let tokens = tokens_of(ts);
    let plain = |c: char| lex::is_plain(c);
    lemma_first_token(text);
    match piece {
        Piece::Name(glob) => {
            law_lexed(glob, glob);
            assert forall|i: int| 0 <= i < ts.len() implies in_name(#[trigger] ts[i]) by {
                assert(ts[i] is Ok);
                assert(tokens[i] == ts[i]->Ok_0);
            }
            assert(ts.len() > 0);
            if tokens.len() == 1 && tokens[0] is Lit {
                // A single literal without a backslash is the glob itself.
                let (token, width) = first_token(glob)->Ok_0;
                let rest = glob.skip(width as int);
                assert(ts == seq![Ok::<TokenView, GlobError>(token)] + lexed(rest));
                assert(tokens[0] == token);
                assert(lexed(rest).len() == 0);
                assert(rest.len() == 0) by {
                    if rest.len() > 0 {
                        assert(lexed(rest).len() > 0);
                    }
                }
                if glob[0] == '\\' {
                    assert(token->Lit_0[0] == glob[1]);
                    assert(token->Lit_0[0] != '.');
                } else {
                    assert(token->Lit_0 =~= glob);
                }
            }
            if tokens == seq![TokenView::Lit(seq!['.'])] {
                assert(tokens[0] == TokenView::Lit(seq!['.']));
            }
            if tokens == seq![TokenView::Lit(seq!['.', '.'])] {
                assert(tokens[0] == TokenView::Lit(seq!['.', '.']));
            }
        },
        _ => {
            let rest = text.skip(1);
            assert(rest[0] == '.');
            lemma_run_is(rest, plain, 1);
            assert(text.take(2) =~= text);
            assert(text.skip(2) =~= seq![]);
            assert(lexed(text.skip(2)) =~= seq![]);
            assert(first_token(text) == Ok::<(TokenView, nat), GlobError>(
                (TokenView::Lit(text), 2),
            ));
            assert(ts =~= seq![Ok::<TokenView, GlobError>(TokenView::Lit(text))]);
            assert(tokens =~= seq![TokenView::Lit(seq!['.', '.'])]);
            assert(tokens[0] == TokenView::Lit(seq!['.', '.']));
            let dot = seq![TokenView::Lit(seq!['.'])];
            assert(dot[0]->Lit_0.len() == 1);
            assert(tokens != dot);
        },
    }
}

proof fn lemma_tree_tokens()
    ensures
        lexed(seq!['*', '*']) == seq![Ok::<TokenView, GlobError>(TokenView::AnyTree)],
        is_lexed(seq!['*', '*']),
{
    let text = seq!['*', '*'];
    lemma_run_is(text, |c: char| c == '*', 2);
    assert(text.skip(2) =~= seq![]);
    assert(lexed(text.skip(2)) =~= seq![]);
    assert(lexed(text) =~= seq![Ok::<TokenView, GlobError>(TokenView::AnyTree)]);
}

/// The text of parts is not empty.
proof fn lemma_spelled(pieces: Seq<Piece>)
    requires
        pieces.len() > 0,
        forall|i: int| 0 <= i < pieces.len() ==> is_piece(#[trigger] pieces[i]),
    ensures
        spelled(pieces).len() > 0,
        spelled(pieces)[0] != '/',
{
    let first = pieces[0];
    assert(is_piece(first));
    assert(piece_text(first).len() > 0 && piece_text(first)[0] != '/');
    assert(spelled(pieces)[0] == piece_text(first)[0]);
}

/// The components behind the last part: a separator at the end is one.
pub open spec fn at_end(trailing: bool) -> Seq<Part> {
    if trailing {
        seq![Ok(ComponentView::TrailingSep)]
    } else {
        seq![]
    }
}

/// The tokens behind the last part.
spec fn end_tokens(trailing: bool) -> Seq<Lexeme> {
    if trailing {
        seq![sep()]
    } else {
        seq![]
    }
}

proof fn lemma_components(pieces: Seq<Piece>, trailing: bool)
    requires
        pieces.len() > 0,
        forall|i: int| 0 <= i < pieces.len() ==> is_piece(#[trigger] pieces[i]),
    ensures
        components_of(lexed(spelled(pieces)) + end_tokens(trailing)) == pieces.map_values(
            |p: Piece| Ok::<ComponentView, GlobError>(piece_component(p)),
        ) + at_end(trailing),
        lexed(spelled(pieces)).len() > 0,
        lexed(spelled(pieces))[0] != sep(),
        is_lexed(spelled(pieces)),
    decreases pieces.len(),
{
    let p = |t: Lexeme| in_name(t);
    let f = |p: Piece| Ok::<ComponentView, GlobError>(piece_component(p));
    let first = pieces[0];
    let text = piece_text(first);
    let own = lexed(text);
    let rest = pieces.skip(1);
    let end = end_tokens(trailing);
    assert(is_piece(first));
    if first is Tree {
        lemma_tree_tokens();
    } else {
        lemma_piece_tokens(first);
    }
    let more = if pieces.len() == 1 {
        end
    } else {
        assert forall|i: int| 0 <= i < rest.len() implies is_piece(#[trigger] rest[i]) by {
            assert(rest[i] == pieces[i + 1]);
        }
        lemma_components(rest, trailing);
        lemma_lexed_sep(text, spelled(rest));
        seq![sep()] + (lexed(spelled(rest)) + end)
    };
    let ts = lexed(spelled(pieces)) + end;
    assert(ts =~= own + more);
    assert(pieces.map_values(f) =~= seq![f(first)] + rest.map_values(f));
    lemma_behind(more);
    if more.len() > 0 {
        assert(more[0] == sep());
        if pieces.len() > 1 {
            assert(more.skip(1) =~= lexed(spelled(rest)) + end);
        }
    }
    if first is Tree {
        lemma_run_is(ts, p, 0);
        assert(ts.skip(1) =~= more);
        if more.len() > 0 {
            assert(ts[1] == sep());
        }
    } else {
        let n = own.len() as int;
        assert forall|i: int| 0 <= i < n implies p(#[trigger] ts[i]) by {
            assert(ts[i] == own[i]);
        }
        if more.len() > 0 {
            assert(ts[n] == sep());
        }
        lemma_run_is(ts, p, own.len());
        assert(ts.take(n) =~= own);
        if more.len() > 0 {
            assert(ts.skip(n + 1) =~= more.skip(1));
        }
    }
    assert(components_of(ts) =~= seq![f(first)] + components_of(more));
    if pieces.len() == 1 {
        assert(components_of(more) =~= at_end(trailing));
        assert(rest.map_values(f) =~= seq![]);
    }
    assert(components_of(ts) =~= pieces.map_values(f) + at_end(trailing));
}

/// What stands behind a part is nothing, or a separator with more behind it.
proof fn lemma_behind(more: Seq<Lexeme>)
    ensures
        more.len() == 0 ==> components_of(more) == Seq::<Part>::empty(),
        more.len() == 1 && more[0] == sep() ==> components_of(more) == at_end(true),
        more.len() > 1 && more[0] == sep() ==> components_of(more) == components_of(more.skip(1)),
{
    lemma_nothing();
    if more.len() == 0 {
        assert(more =~= seq![]);
    } else if more[0] == sep() {
        lemma_run_is(more, |t: Lexeme| in_name(t), 0);
        assert(more.take(0) =~= seq![]);
        assert(tokens_of(more.take(0)) =~= seq![]);
        if more.len() == 1 {
            assert(components_of(more) =~= at_end(true));
        } else {
            assert(components_of(more) =~= components_of(more.skip(1)));
        }
    }
}

proof fn lemma_nothing()
    ensures
        components_of(seq![]) == Seq::<Part>::empty(),
{
    let none = Seq::<Lexeme>::empty();
    lemma_run_is(none, |t: Lexeme| in_name(t), 0);
    assert(none.take(0) =~= none);
    assert(tokens_of(none) =~= seq![]);
}

/// The components of a glob are what its parts between the separators stand for: `..` the directory
/// above, `**` any directories, and anything else a name. A separator at the end is one more.
pub proof fn law_components(pieces: Seq<Piece>)
    requires
        pieces.len() > 0,
        forall|i: int| 0 <= i < pieces.len() ==> is_piece(#[trigger] pieces[i]),
    ensures
        segmented(spelled(pieces)) == pieces.map_values(
            |p: Piece| Ok::<ComponentView, GlobError>(piece_component(p)),
        ),
        segmented(spelled(pieces) + seq!['/']) == pieces.map_values(
            |p: Piece| Ok::<ComponentView, GlobError>(piece_component(p)),
        ).push(Ok::<ComponentView, GlobError>(ComponentView::TrailingSep)),
{
    let text = spelled(pieces);
    let none = Seq::<char>::empty();
    let f = |p: Piece| Ok::<ComponentView, GlobError>(piece_component(p));
    lemma_components(pieces, false);
    lemma_components(pieces, true);
    lemma_lexed_sep(text, none);
    assert(text + seq!['/'] + none =~= text + seq!['/']);
    assert(lexed(none) =~= seq![]);
    assert(lexed(text + seq!['/']) =~= lexed(text) + end_tokens(true));
    assert(lexed(text) + end_tokens(false) =~= lexed(text));
    assert(pieces.map_values(f) + at_end(false) =~= pieces.map_values(f));
    assert(pieces.map_values(f) + at_end(true) =~= pieces.map_values(f).push(
        Ok::<ComponentView, GlobError>(ComponentView::TrailingSep),
    ));
}

/// A glob that starts with `..` any number of times, and has names and `**` behind that, leads up as many
/// directories, and then down by what is behind. `..` may not stand behind anything else.
pub proof fn law_parents(parents: nat, pieces: Seq<Piece>)
    requires
        forall|i: int| 0 <= i < parents ==> (#[trigger] pieces[i]) is Parent,
        parents <= pieces.len(),
        pieces.len() > 0,
        forall|i: int| 0 <= i < pieces.len() ==> is_piece(#[trigger] pieces[i]),
        parents < pieces.len() ==> !(pieces[parents as int] is Parent),
    ensures
        (forall|i: int| parents <= i < pieces.len() ==> !((#[trigger] pieces[i]) is Parent)) ==> parsed(
            spelled(pieces),
        ) == Ok::<_, GlobError>(
            glob_of(parents, pieces.skip(parents as int).map_values(|p: Piece| piece_component(p))),
        ),
        (exists|i: int| parents <= i < pieces.len() && (#[trigger] pieces[i]) is Parent) ==> parsed(
            spelled(pieces),
        ) == Err::<crate::glob::parse::GlobView, GlobError>(GlobError::MisplacedParent),
{
    let cs = segmented(spelled(pieces));
    let up = |c: Part| is_parent(c);
    let down = |c: Part| is_below(c);
    let n = parents as int;
    lemma_spelled(pieces);
    law_components(pieces);
    assert forall|i: int| 0 <= i < n implies up(#[trigger] cs[i]) by {
        assert(pieces[i] is Parent);
    }
    if n < cs.len() {
        assert(!up(cs[n]));
    }
    lemma_run_is(cs, up, parents);
    let rest = cs.skip(n);
    if forall|i: int| parents <= i < pieces.len() ==> !((#[trigger] pieces[i]) is Parent) {
        assert forall|i: int| 0 <= i < rest.len() implies down(#[trigger] rest[i]) by {
            assert(!(pieces[n + i] is Parent));
        }
        lemma_run_is(rest, down, rest.len());
        assert(rest.map_values(|c: Part| c->Ok_0) =~= pieces.skip(n).map_values(
            |p: Piece| piece_component(p),
        ));
    } else {
        let good = run(rest, down) as int;
        crate::text::lemma_run(rest, down);
        let i = choose|i: int| parents <= i < pieces.len() && (#[trigger] pieces[i]) is Parent;
        assert(!down(rest[i - n]));
        assert(good < rest.len());
        assert(!down(rest[good]));
    }
}

/// Names between separators are the segments of the base path, up to the first `**`, and those behind it
/// the segments of the paths that follow. A `**` at the end is followed by any name.
pub proof fn law_glob_of(parents: nat, base: Seq<SegmentView>, behind: Seq<SegmentView>)
    ensures
        glob_of(parents, base.map_values(|s: SegmentView| ComponentView::Seg(s))).parent_segs == parents,
        glob_of(parents, base.map_values(|s: SegmentView| ComponentView::Seg(s))).base == base,
        glob_of(parents, base.map_values(|s: SegmentView| ComponentView::Seg(s))).floating.len() == 0,
        ({
            let cs = base.map_values(|s: SegmentView| ComponentView::Seg(s)) + seq![
                ComponentView::AnyTree,
            ] + behind.map_values(|s: SegmentView| ComponentView::Seg(s));
            let glob = glob_of(parents, cs);
            &&& glob.parent_segs == parents
            &&& glob.base == base
            &&& glob.floating == seq![
                if behind.len() == 0 {
                    seq![any_name()]
                } else {
                    behind
                },
            ]
            &&& !glob.trailing_sep
        }),
{
    let f = |s: SegmentView| ComponentView::Seg(s);
    let none = Seq::<ComponentView>::empty();
    let here = Seq::<SegmentView>::empty();
    lemma_paths(here, false, base, none);
    assert(base.map_values(f) + none =~= base.map_values(f));
    assert(here + base =~= base);
    let tree = seq![ComponentView::AnyTree] + behind.map_values(f);
    lemma_paths(here, false, base, tree);
    assert(tree.skip(1) =~= behind.map_values(f));
    lemma_paths(here, true, behind, none);
    assert(behind.map_values(f) + none =~= behind.map_values(f));
    assert(here + behind =~= behind);
    let cs = base.map_values(f) + seq![ComponentView::AnyTree] + behind.map_values(f);
    assert(cs =~= base.map_values(f) + tree);
    let last = paths_of(here, true, behind.map_values(f));
    assert((seq![base] + last).skip(1) =~= last);
    assert forall|i: int| 0 <= i < cs.len() implies #[trigger] cs[i] != ComponentView::TrailingSep by {
        if i < base.len() {
            assert(cs[i] == f(base[i]));
        } else if i > base.len() {
            assert(cs[i] == f(behind[i - base.len() - 1]));
        }
    }
}

/// Segments are added to the path that they belong to.
proof fn lemma_paths(
    cur: Seq<SegmentView>,
    floating: bool,
    segments: Seq<SegmentView>,
    rest: Seq<ComponentView>,
)
    ensures
        paths_of(
            cur,
            floating,
            segments.map_values(|s: SegmentView| ComponentView::Seg(s)) + rest,
        ) == paths_of(cur + segments, floating, rest),
    decreases segments.len(),
{
    let f = |s: SegmentView| ComponentView::Seg(s);
    let cs = segments.map_values(f) + rest;
    if segments.len() == 0 {
        assert(cs =~= rest);
        assert(cur + segments =~= cur);
    } else {
        assert(cs[0] == f(segments[0]));
        assert(cs.skip(1) =~= segments.skip(1).map_values(f) + rest);
        lemma_paths(cur.push(segments[0]), floating, segments.skip(1), rest);
        assert(cur.push(segments[0]) + segments.skip(1) =~= cur + segments);
    }
}

/// The glob of a name is one segment, which matches the plain texts that its characters match, one after
/// another.
pub proof fn law_name_glob(glob: Seq<char>, text: Seq<char>)
    requires
        is_piece(Piece::Name(glob)),
        is_small_normal(),
    ensures
        parsed(glob) is Ok,
        parsed(glob)->Ok_0.parent_segs == 0,
        parsed(glob)->Ok_0.base.len() == 1,
        parsed(glob)->Ok_0.floating.len() == 0,
        !parsed(glob)->Ok_0.trailing_sep,
        matches_plain(parsed(glob)->Ok_0.base[0], text) <==> wild(glob, text),
{
    let pieces = seq![Piece::Name(glob)];
    assert(pieces[0] == Piece::Name(glob));
    law_parents(0, pieces);
    law_wild(glob, text);
    let base = seq![name_segment(glob)];
    let cs = pieces.skip(0).map_values(|p: Piece| piece_component(p));
    assert(cs =~= base.map_values(|s: SegmentView| ComponentView::Seg(s)));
    law_glob_of(0, base, seq![]);
    assert(cs[0] is Seg);
}

} // verus!
