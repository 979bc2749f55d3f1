//! How many separators stand between two names, and whether `.` stands between them, makes no difference.
use crate::glob::lex::{first_token, is_plain, lemma_first_token, lexed, GlobError, TokenView};
use crate::glob::parse::{
    component_of, components_of, in_name, name_end, parsed, segmented, tokens_of, ComponentView, Lexeme,
    Part,
};
use crate::text::{lemma_run, lemma_run_is, run};
use vstd::prelude::*;

verus! {

/// The lexeme of a separator.
pub(crate) open spec fn sep() -> Lexeme {
    Ok(TokenView::Sep)
}

/// The lexeme of a dot.
spec fn dot() -> Lexeme {
    Ok(TokenView::Lit(seq!['.']))
}

/// The text is made of tokens.
pub(crate) open spec fn is_lexed(s: Seq<char>) -> bool {
    forall|i: int| 0 <= i < lexed(s).len() ==> (#[trigger] lexed(s)[i]) is Ok
}

/// A run that a separator ends is as long whatever follows.
proof fn lemma_run_sep(s: Seq<char>, rest: Seq<char>, p: spec_fn(char) -> bool)
    requires
        !p('/'),
    ensures
        run(s + seq!['/'] + rest, p) == run(s, p),
{
    let all = s + seq!['/'] + rest;
    let n = run(s, p);
    lemma_run(s, p);
    assert forall|i: int| 0 <= i < n implies p(#[trigger] all[i]) by {
        assert(all[i] == s[i]);
    }
    if n < s.len() {
        assert(all[n as int] == s[n as int]);
    } else {
        assert(all[n as int] == '/');
    }
    lemma_run_is(all, p, n);
}

/// The token before a separator is the same whatever follows.
proof fn lemma_token_sep(a: Seq<char>, rest: Seq<char>)
    requires
        a.len() > 0,
    ensures
        first_token(a) is Ok ==> first_token(a + seq!['/'] + rest) == first_token(a),
        first_token(a) is Err ==> first_token(a + seq!['/'] + rest) == Err::<
            (TokenView, nat),
            GlobError,
        >(
            if a.len() < 2 {
                GlobError::InvalidEscape('/')
            } else {
                first_token(a)->Err_0
            },
        ),
{
    let s = a + seq!['/'] + rest;
    let plain = |c: char| is_plain(c);
    assert(s[0] == a[0]);
    if a[0] == '*' {
        lemma_run_sep(a, rest, |c: char| c == '*');
    } else if a[0] == '\\' {
        if a.len() >= 2 {
            assert(s[1] == a[1]);
            let inner = a.skip(2);
            lemma_run(inner, plain);
            lemma_run_sep(inner, rest, plain);
            assert(s.skip(2) =~= inner + seq!['/'] + rest);
            let end = 2 + run(inner, plain) as int;
            assert(s.subrange(1, end) =~= a.subrange(1, end));
        } else {
            assert(s[1] == '/');
        }
    } else if a[0] != '/' && a[0] != '?' {
        let inner = a.skip(1);
        lemma_run(inner, plain);
        lemma_run_sep(inner, rest, plain);
        assert(s.skip(1) =~= inner + seq!['/'] + rest);
        let end = 1 + run(inner, plain) as int;
        assert(s.take(end) =~= a.take(end));
    }
}

/// A separator stands for itself between the tokens of what stands before it and behind it. If there is
/// an error before it, nothing behind it matters.
pub(crate) proof fn lemma_lexed_sep(a: Seq<char>, rest: Seq<char>)
    ensures
        is_lexed(a) ==> lexed(a + seq!['/'] + rest) == lexed(a) + seq![sep()] + lexed(rest),
        !is_lexed(a) ==> lexed(a + seq!['/'] + rest) == lexed(a + seq!['/']),
    decreases a.len(),
{
    let s = a + seq!['/'] + rest;
    let short = a + seq!['/'];
    let none = Seq::<char>::empty();
    assert(a + seq!['/'] + none =~= short);
    if a.len() == 0 {
        assert(s[0] == '/');
        assert(s.skip(1) =~= rest);
        assert(lexed(a) =~= seq![]);
        assert(lexed(s) =~= lexed(a) + seq![sep()] + lexed(rest));
    } else {
        lemma_token_sep(a, rest);
        lemma_token_sep(a, none);
        lemma_first_token(a);
        match first_token(a) {
            Ok((token, width)) => {
                let n = width as int;
                let left = a.skip(n);
                let first: Seq<Lexeme> = seq![Ok(token)];
                lemma_lexed_sep(left, rest);
                assert(s.skip(n) =~= left + seq!['/'] + rest);
                assert(short.skip(n) =~= left + seq!['/']);
                assert(lexed(a) == first + lexed(left));
                assert(is_lexed(a) == is_lexed(left)) by {
                    if is_lexed(a) {
                        assert forall|i: int| 0 <= i < lexed(left).len() implies (#[trigger] lexed(
                            left,
                        )[i]) is Ok by {
                            assert(lexed(a)[i + 1] == lexed(left)[i]);
                        }
                    }
                    if is_lexed(left) {
                        assert forall|i: int| 0 <= i < lexed(a).len() implies (#[trigger] lexed(
                            a,
                        )[i]) is Ok by {
                            if i > 0 {
                                assert(lexed(a)[i] == lexed(left)[i - 1]);
                            }
                        }
                    }
                }
                assert(lexed(s) == first + lexed(left + seq!['/'] + rest));
                assert(lexed(short) == first + lexed(left + seq!['/']));
                assert(first + (lexed(left) + seq![sep()] + lexed(rest)) =~= first + lexed(left)
                    + seq![sep()] + lexed(rest));
            },
            Err(_) => {
                assert(lexed(a)[0] is Err);
            },
        }
    }
}

/// Nothing stands between the separators that a component could be made of.
spec fn is_nothing(between: Seq<Lexeme>) -> bool {
    between == seq![sep()] || between == seq![sep(), sep()] || between == seq![sep(), dot(), sep()]
}

/// Separators without anything between them are as good as one.
proof fn lemma_components_sep(before: Seq<Lexeme>, between: Seq<Lexeme>, behind: Seq<Lexeme>)
    requires
        is_nothing(between),
        forall|i: int| 0 <= i < before.len() ==> (#[trigger] before[i]) is Ok,
    ensures
        components_of(before + between + behind) == components_of(before + seq![sep()] + behind),
    decreases before.len(),
{
    let p = |t: Lexeme| in_name(t);
    let ts = before + between + behind;
    let us = before + seq![sep()] + behind;
    let n = name_end(before);
    lemma_run(before, p);
    assert(between[0] == sep());
    assert forall|i: int| 0 <= i < n implies p(#[trigger] ts[i]) && p(#[trigger] us[i]) by {
        assert(p(before[i]));
    }
    assert(!in_name(sep()));
    if n < before.len() {
        assert(ts[n] == before[n] && us[n] == before[n]);
    } else {
        assert(ts[n] == sep() && us[n] == sep());
    }
    lemma_run_is(ts, p, n as nat);
    lemma_run_is(us, p, n as nat);
    assert(ts.take(n) =~= before.take(n));
    assert(us.take(n) =~= before.take(n));
    if n < before.len() {
        let rest = before.skip(n + 1);
        assert forall|i: int| 0 <= i < rest.len() implies (#[trigger] rest[i]) is Ok by {
            assert(rest[i] == before[n + 1 + i]);
        }
        lemma_components_sep(rest, between, behind);
        assert(ts.skip(n + 1) =~= rest + between + behind);
        assert(us.skip(n + 1) =~= rest + seq![sep()] + behind);
        assert(before[n] is Ok);
        if n + 1 < before.len() {
            assert(ts[n + 1] == before[n + 1] && us[n + 1] == before[n + 1]);
        } else {
            assert(ts[n + 1] == sep() && us[n + 1] == sep());
        }
    } else {
        assert(us.skip(n + 1) =~= behind);
        if between.len() > 1 {
            let more = between.skip(1) + behind;
            assert(ts.skip(n + 1) =~= more);
            lemma_nothing(between, behind);
        } else {
            assert(between =~= seq![sep()]);
        }
    }
}

/// The component of a separator at the end.
spec fn ends() -> Seq<Part> {
    seq![Ok(ComponentView::TrailingSep)]
}

/// What stands between the first separator and the last adds nothing to what follows.
proof fn lemma_nothing(between: Seq<Lexeme>, behind: Seq<Lexeme>)
    requires
        is_nothing(between),
        between.len() > 1,
    ensures
        components_of(between.skip(1) + behind) == if behind.len() == 0 {
            components_of(seq![sep()])
        } else {
            components_of(behind)
        },
        components_of(seq![sep()]) == ends(),
{
    let p = |t: Lexeme| in_name(t);
    let ts = between.skip(1) + behind;
    let one = seq![sep()];
    let none = Seq::<Lexeme>::empty();
    lemma_run_is(one, p, 0);
    assert(one.take(0) =~= none);
    assert(tokens_of(none) =~= seq![]);
    assert(component_of(tokens_of(none)) is None);
    assert(components_of(one) =~= ends());
    if between == seq![sep(), sep()] {
        assert(ts[0] == sep());
        lemma_run_is(ts, p, 0);
        assert(ts.take(0) =~= none);
        assert(ts.skip(1) =~= behind);
        if behind.len() == 0 {
            assert(ts =~= one);
        } else {
            assert(components_of(ts) =~= components_of(behind));
        }
    } else {
        assert(ts[0] == dot() && ts[1] == sep());
        assert(p(ts[0]));
        lemma_run_is(ts, p, 1);
        let name = ts.take(1);
        assert(name =~= seq![dot()]);
        assert(tokens_of(name) =~= seq![TokenView::Lit(seq!['.'])]);
        assert(component_of(tokens_of(name)) is None);
        assert(ts.skip(2) =~= behind);
        if behind.len() == 0 {
            assert(components_of(ts) =~= components_of(one));
        } else {
            assert(components_of(ts) =~= components_of(behind));
        }
    }
}

/// The tokens of a dot between separators.
proof fn lemma_dot(rest: Seq<char>)
    ensures
        lexed(seq!['.', '/'] + rest) == seq![dot(), sep()] + lexed(rest),
{
    let one = seq!['.'];
    let plain = |c: char| is_plain(c);
    assert(one.skip(1) =~= seq![]);
    lemma_run_is(one.skip(1), plain, 0);
    assert(one.take(1) =~= one);
    assert(lexed(one.skip(1)) =~= seq![]);
    assert(lexed(one) =~= seq![dot()]);
    lemma_lexed_sep(one, rest);
    assert(one + seq!['/'] + rest =~= seq!['.', '/'] + rest);
    assert(lexed(one) + seq![sep()] + lexed(rest) =~= seq![dot(), sep()] + lexed(rest));
}

/// Two separators in a row, and `.` between two separators, are as good as one separator.
pub proof fn law_plain_separators(a: Seq<char>, b: Seq<char>)
    ensures
        parsed(a + seq!['/', '/'] + b) == parsed(a + seq!['/'] + b),
        parsed(a + seq!['/', '.', '/'] + b) == parsed(a + seq!['/'] + b),
{
    let one = a + seq!['/'] + b;
    let two = a + seq!['/', '/'] + b;
    let dots = a + seq!['/', '.', '/'] + b;
    let then = seq!['/'] + b;
    let then_dot = seq!['.', '/'] + b;
    assert(two =~= a + seq!['/'] + then);
    assert(dots =~= a + seq!['/'] + then_dot);
    lemma_lexed_sep(a, b);
    lemma_lexed_sep(a, then);
    lemma_lexed_sep(a, then_dot);
    if is_lexed(a) {
        let x = lexed(a);
        let y = lexed(b);
        let none = Seq::<char>::empty();
        lemma_lexed_sep(none, b);
        assert(none + seq!['/'] + b =~= then);
        assert(lexed(none) =~= seq![]);
        assert(lexed(none) + seq![sep()] + y =~= seq![sep()] + y);
        lemma_dot(b);
        assert(lexed(two) =~= x + seq![sep(), sep()] + y);
        assert(lexed(dots) =~= x + seq![sep(), dot(), sep()] + y);
        lemma_components_sep(x, seq![sep(), sep()], y);
        lemma_components_sep(x, seq![sep(), dot(), sep()], y);
        if x.len() > 0 {
            assert(lexed(one)[0] == x[0] && lexed(two)[0] == x[0] && lexed(dots)[0] == x[0]);
        } else {
            assert(lexed(one)[0] == sep() && lexed(two)[0] == sep() && lexed(dots)[0] == sep());
        }
    }
    assert(segmented(two) == segmented(one));
    assert(segmented(dots) == segmented(one));
}

} // verus!
