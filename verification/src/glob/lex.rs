//! The first pass over a glob: from characters to tokens.
use crate::text::{chars, copied, lemma_run, lemma_run_is, run, view_results};
use vstd::prelude::*;

verus! {

/// What is wrong with the text of a glob.
#[derive(Clone, Copy, Debug, PartialEq, Eq, Structural)]
pub enum GlobError {
    /// The text is empty.
    Empty,
    /// A backslash stands before a character that needs no escape.
    InvalidEscape(char),
    /// A backslash ends the text.
    UnfinishedEscape,
    /// The path starts with a separator.
    NotRelative,
    /// A double wildcard is followed by something other than a separator.
    AfterTree,
    /// A double wildcard is preceded by something other than a separator.
    BeforeTree,
    /// A parent segment stands behind another segment.
    MisplacedParent,
    /// The path ends with a separator, so no file can match.
    TrailingSeparator,
    /// The path has no segments, so no file can match.
    NoSegments,
}

/// A piece of a glob's text.
#[derive(Debug)]
pub enum Token {
    /// Characters that stand for themselves.
    Lit(Vec<char>),
    /// `?`
    AnyGrapheme,
    /// `*`
    AnyStr,
    /// `/`
    Sep,
    /// `**`
    AnyTree,
}

#[verifier::ext_equal]
pub enum TokenView {
    Lit(Seq<char>),
    AnyGrapheme,
    AnyStr,
    Sep,
    AnyTree,
}

impl View for Token {
    type V = TokenView;

    open spec fn view(&self) -> TokenView {
        match self {
            Token::Lit(lit) => TokenView::Lit(lit@),
            Token::AnyGrapheme => TokenView::AnyGrapheme,
            Token::AnyStr => TokenView::AnyStr,
            Token::Sep => TokenView::Sep,
            Token::AnyTree => TokenView::AnyTree,
        }
    }
}

/// The characters that stand for themselves wherever they are.
pub open spec fn is_plain(c: char) -> bool {
    c != '/' && c != '?' && c != '*' && c != '\\'
}

/// The characters that a backslash makes stand for themselves.
pub open spec fn is_escapable(c: char) -> bool {
    c == '?' || c == '*' || c == '\\'
}

/// The token at the start of a nonempty text, with the number of characters it takes up.
pub open spec fn first_token(s: Seq<char>) -> Result<(TokenView, nat), GlobError> {
    if s[0] == '/' {
        Ok((TokenView::Sep, 1))
    } else if s[0] == '?' {
        Ok((TokenView::AnyGrapheme, 1))
    } else if s[0] == '*' {
        let stars = run(s, |c: char| c == '*');
        if stars >= 2 {
            Ok((TokenView::AnyTree, stars))
        } else {
            Ok((TokenView::AnyStr, 1))
        }
    } else if s[0] == '\\' {
        if s.len() < 2 {
            Err(GlobError::UnfinishedEscape)
        } else if is_escapable(s[1]) {
            let end = 2 + run(s.skip(2), |c: char| is_plain(c));
            Ok((TokenView::Lit(s.subrange(1, end as int)), end))
        } else {
            Err(GlobError::InvalidEscape(s[1]))
        }
    } else {
        let end = 1 + run(s.skip(1), |c: char| is_plain(c));
        Ok((TokenView::Lit(s.take(end as int)), end))
    }
}

/// A token takes up at least one character.
pub proof fn lemma_first_token(s: Seq<char>)
    requires
        s.len() > 0,
    ensures
        first_token(s) matches Ok((_, width)) ==> 1 <= width <= s.len(),
{
    lemma_run(s, |c: char| c == '*');
    lemma_run(s.skip(1), |c: char| is_plain(c));
    if s.len() >= 2 {
        lemma_run(s.skip(2), |c: char| is_plain(c));
    }
}

/// The tokens of a text, up to the first error.
pub open spec fn lexed(s: Seq<char>) -> Seq<Result<TokenView, GlobError>>
    decreases s.len(),
{
    if s.len() == 0 {
        seq![]
    } else {
        match first_token(s) {
            Ok((token, width)) => {
                proof {
                    lemma_first_token(s);
                }
                seq![Ok(token)] + lexed(s.skip(width as int))
            },
            Err(e) => seq![Err(e)],
        }
    }
}

/// The end of the run of plain characters that starts at `from`.
fn plain_end(s: &Vec<char>, from: usize) -> (end: usize)
    requires
        from <= s@.len(),
    ensures
        from <= end <= s@.len(),
        end == from + run(s@.skip(from as int), |c: char| is_plain(c)),
{
    let ghost p = |c: char| is_plain(c);
    let mut end: usize = from;
    while end < s.len() && s[end] != '/' && s[end] != '?' && s[end] != '*' && s[end] != '\\'
        invariant
            from <= end <= s@.len(),
            forall|i: int| from <= i < end ==> is_plain(#[trigger] s@[i]),
        decreases s@.len() - end,
    {
        end += 1;
    }
    proof {
        let rest = s@.skip(from as int);
        assert forall|i: int| 0 <= i < end - from implies p(#[trigger] rest[i]) by {
            assert(rest[i] == s@[from + i]);
        }
        lemma_run_is(rest, p, (end - from) as nat);
    }
    end
}

/// Splits a glob into tokens. The list ends at the first error, if there is one.
pub fn lex(glob: &str) -> (tokens: Vec<Result<Token, GlobError>>)
    ensures
        view_results(tokens@) == lexed(glob@),
{
    let s = chars(glob);
    let mut tokens: Vec<Result<Token, GlobError>> = Vec::new();
    let mut pos: usize = 0;
    assert(s@.skip(0) == s@);
    while pos < s.len()
        invariant
            s@ == glob@,
            pos <= s@.len(),
            lexed(s@) == view_results(tokens@) + lexed(s@.skip(pos as int)),
        decreases s@.len() - pos,
    {
        let ghost rest = s@.skip(pos as int);
        let ghost before = tokens@;
        let c = s[pos];
        let token: Token;
        let end: usize;
        if c == '/' {
            token = Token::Sep;
            end = pos + 1;
        } else if c == '?' {
            token = Token::AnyGrapheme;
            end = pos + 1;
        } else if c == '*' {
            let mut stars: usize = pos + 1;
            while stars < s.len() && s[stars] == '*'
                invariant
                    pos < stars <= s@.len(),
                    forall|i: int| pos <= i < stars ==> #[trigger] s@[i] == '*',
                decreases s@.len() - stars,
            {
                stars += 1;
            }
            proof {
                lemma_run_is(rest, |c: char| c == '*', (stars - pos) as nat);
            }
            if stars > pos + 1 {
                token = Token::AnyTree;
                end = stars;
            } else {
                token = Token::AnyStr;
                end = pos + 1;
            }
        } else if c == '\\' {
            if pos + 1 >= s.len() {
                tokens.push(Err(GlobError::UnfinishedEscape));
                assert(view_results(tokens@) =~= view_results(before).push(
                    Err(GlobError::UnfinishedEscape),
                ));
                return tokens;
            }
            let escaped = s[pos + 1];
            if escaped != '?' && escaped != '*' && escaped != '\\' {
                tokens.push(Err(GlobError::InvalidEscape(escaped)));
                assert(view_results(tokens@) =~= view_results(before).push(
                    Err(GlobError::InvalidEscape(escaped)),
                ));
                return tokens;
            }
            end = plain_end(&s, pos + 2);
            assert(rest.skip(2) == s@.skip(pos + 2));
            let lit = copied(s.as_slice(), pos + 1, end);
            assert(lit@ == rest.subrange(1, end - pos));
            token = Token::Lit(lit);
        } else {
            end = plain_end(&s, pos + 1);
            assert(rest.skip(1) == s@.skip(pos + 1));
            let lit = copied(s.as_slice(), pos, end);
            assert(lit@ == rest.take(end - pos));
            token = Token::Lit(lit);
        }
        assert(first_token(rest) == Ok::<(TokenView, nat), GlobError>((token@, (end - pos) as nat)));
        tokens.push(Ok(token));
        assert(view_results(tokens@) =~= view_results(before).push(Ok(token@)));
        assert(rest.skip(end - pos) == s@.skip(end as int));
        pos = end;
    }
    tokens
}

/// A text with a backslash before each character that would not stand for itself.
pub open spec fn escaped(text: Seq<char>) -> Seq<char>
    decreases text.len(),
{
    if text.len() == 0 {
        seq![]
    } else if is_escapable(text[0]) {
        seq!['\\', text[0]] + escaped(text.skip(1))
    } else {
        seq![text[0]] + escaped(text.skip(1))
    }
}

/// The tokens are literals that spell the text.
pub open spec fn spells(tokens: Seq<Result<TokenView, GlobError>>, text: Seq<char>) -> bool
    decreases tokens.len(),
{
    if tokens.len() == 0 {
        text.len() == 0
    } else {
        tokens[0] matches Ok(TokenView::Lit(lit)) && lit.is_prefix_of(text) && spells(
            tokens.skip(1),
            text.skip(lit.len() as int),
        )
    }
}

/// Escaping goes character by character, so plain characters at the start stay as they are.
proof fn lemma_escaped_plain(text: Seq<char>)
    requires
        !text.contains('/'),
    ensures
        ({
            let n = run(text, |c: char| is_plain(c));
            &&& run(escaped(text), |c: char| is_plain(c)) == n
            &&& escaped(text).take(n as int) == text.take(n as int)
            &&& escaped(text).skip(n as int) == escaped(text.skip(n as int))
        }),
    decreases text.len(),
{
    let p = |c: char| is_plain(c);
    let e = escaped(text);
    let n = run(text, p) as int;
    if text.len() > 0 {
        assert(text.contains(text[0]));
        if is_plain(text[0]) {
            let rest = text.skip(1);
            assert(!rest.contains('/')) by {
                if rest.contains('/') {
                    let i = choose|i: int| 0 <= i < rest.len() && rest[i] == '/';
                    assert(text[i + 1] == '/');
                }
            }
            lemma_escaped_plain(rest);
            assert(e.skip(1) =~= escaped(rest));
            assert(e[0] == text[0]);
            lemma_run(text, p);
            lemma_run(rest, p);
            lemma_run(e, p);
            lemma_run(escaped(rest), p);
            assert(e.take(n) =~= seq![text[0]] + escaped(rest).take(n - 1));
            assert(text.take(n) =~= seq![text[0]] + rest.take(n - 1));
            assert(e.skip(n) =~= escaped(rest).skip(n - 1));
            assert(text.skip(n) =~= rest.skip(n - 1));
        } else {
            assert(e[0] == '\\');
            assert(e.take(0) =~= text.take(0));
            assert(e.skip(0) =~= e);
            assert(text.skip(0) =~= text);
        }
    } else {
        assert(e.take(0) =~= text.take(0));
        assert(e.skip(0) =~= e);
        assert(text.skip(0) =~= text);
    }
}

/// Any text without separators can be written as a glob that stands for it and nothing else, by
/// escaping it.
pub proof fn law_escaped(text: Seq<char>)
    requires
        !text.contains('/'),
    ensures
        spells(lexed(escaped(text)), text),
    decreases text.len(),
{
    let p = |c: char| is_plain(c);
    let e = escaped(text);
    if text.len() > 0 {
        assert(text.contains(text[0]));
        let rest = text.skip(1);
        assert(!rest.contains('/')) by {
            if rest.contains('/') {
                let i = choose|i: int| 0 <= i < rest.len() && rest[i] == '/';
                assert(text[i + 1] == '/');
            }
        }
        let n = run(rest, p) as int;
        lemma_run(rest, p);
        lemma_escaped_plain(rest);
        lemma_run(escaped(rest), p);
        let lit = text.take(n + 1);
        let left = text.skip(n + 1);
        assert(left =~= rest.skip(n));
        assert(lit =~= seq![text[0]] + rest.take(n));
        assert(!left.contains('/')) by {
            if left.contains('/') {
                let i = choose|i: int| 0 <= i < left.len() && left[i] == '/';
                assert(text[i + n + 1] == '/');
            }
        }
        law_escaped(left);
        let width = if is_escapable(text[0]) {
            n + 2
        } else {
            n + 1
        };
        if is_escapable(text[0]) {
            assert(e.skip(2) =~= escaped(rest));
            assert(e.subrange(1, width) =~= seq![text[0]] + escaped(rest).take(n));
        } else {
            assert(e.skip(1) =~= escaped(rest));
            assert(e.take(width) =~= seq![text[0]] + escaped(rest).take(n));
        }
        assert(e.skip(width) =~= escaped(rest).skip(n));
        assert(first_token(e) == Ok::<(TokenView, nat), GlobError>(
            (TokenView::Lit(lit), width as nat),
        ));
        assert(lexed(e).skip(1) =~= lexed(escaped(left)));
        assert(text.skip(lit.len() as int) =~= left);
    }
}

/// A backslash makes `?`, `*` and another backslash stand for themselves, and is an error before any other
/// character and at the end.
pub proof fn law_backslash(c: char, rest: Seq<char>)
    ensures
        first_token(seq!['\\']) == Err::<(TokenView, nat), GlobError>(GlobError::UnfinishedEscape),
        c != '?' && c != '*' && c != '\\' ==> first_token(seq!['\\', c] + rest) == Err::<
            (TokenView, nat),
            GlobError,
        >(GlobError::InvalidEscape(c)),
        c == '?' || c == '*' || c == '\\' ==> (first_token(seq!['\\', c] + rest) matches Ok(
            (TokenView::Lit(lit), _),
        ) && lit.len() > 0 && lit[0] == c),
{
    let text = seq!['\\', c] + rest;
    assert(text[0] == '\\' && text[1] == c);
    lemma_first_token(text);
    lemma_run(text.skip(2), |c: char| is_plain(c));
}

/// One `*` stands for any text, and more than one for any directories, however many there are.
pub proof fn law_asterisks(n: nat, rest: Seq<char>)
    requires
        n > 0,
        rest.len() > 0 ==> rest[0] != '*',
    ensures
        first_token(Seq::new(n, |i: int| '*') + rest) == Ok::<(TokenView, nat), GlobError>(
            if n == 1 {
                (TokenView::AnyStr, 1)
            } else {
                (TokenView::AnyTree, n)
            },
        ),
{
    let text = Seq::new(n, |i: int| '*') + rest;
    let star = |c: char| c == '*';
    assert(text[0] == '*');
    assert forall|i: int| 0 <= i < n implies star(#[trigger] text[i]) by {}
    if rest.len() > 0 {
        assert(text[n as int] == rest[0]);
    }
    lemma_run_is(text, star, n);
}

} // verus!
