//! Sequences, characters and the strings that are made of them.
use vstd::prelude::*;

verus! {

/// The length of the longest prefix of `s` whose items all satisfy `p`.
pub open spec fn run<T>(s: Seq<T>, p: spec_fn(T) -> bool) -> nat
    decreases s.len(),
{
    if s.len() > 0 && p(s[0]) {
        1 + run(s.skip(1), p)
    } else {
        0
    }
}

/// `n` is the run of `s` exactly if the first `n` items satisfy `p` and the next one, if any, does
/// not.
pub proof fn lemma_run<T>(s: Seq<T>, p: spec_fn(T) -> bool)
    ensures
        run(s, p) <= s.len(),
        forall|i: int| 0 <= i < run(s, p) ==> p(#[trigger] s[i]),
        run(s, p) < s.len() ==> !p(s[run(s, p) as int]),
    decreases s.len(),
{
    if s.len() > 0 && p(s[0]) {
        lemma_run(s.skip(1), p);
        assert forall|i: int| 0 <= i < run(s, p) implies p(#[trigger] s[i]) by {
            if i > 0 {
                assert(s[i] == s.skip(1)[i - 1]);
            }
        }
    }
}

pub proof fn lemma_run_is<T>(s: Seq<T>, p: spec_fn(T) -> bool, n: nat)
    requires
        n <= s.len(),
        forall|i: int| 0 <= i < n ==> p(#[trigger] s[i]),
        n < s.len() ==> !p(s[n as int]),
    ensures
        run(s, p) == n,
{
    lemma_run(s, p);
    if run(s, p) < n {
        assert(p(s[run(s, p) as int]));
    }
}

/// Filtering keeps the items that satisfy `p`, and no others.
pub proof fn lemma_filter<T>(s: Seq<T>, p: spec_fn(T) -> bool, x: T)
    ensures
        s.filter(p).contains(x) <==> s.contains(x) && p(x),
    decreases s.len(),
{
    reveal(Seq::filter);
    if s.len() > 0 {
        let rest = s.drop_last();
        lemma_filter(rest, p, x);
        if s.contains(x) && !rest.contains(x) {
            let i = choose|i: int| 0 <= i < s.len() && s[i] == x;
            if i < rest.len() {
                assert(rest[i] == x);
            }
        }
        if rest.contains(x) {
            let i = choose|i: int| 0 <= i < rest.len() && rest[i] == x;
            assert(s[i] == x);
        }
        if rest.filter(p).contains(x) {
            let i = choose|i: int| 0 <= i < rest.filter(p).len() && rest.filter(p)[i] == x;
            assert(s.filter(p)[i] == x);
        }
        if p(s.last()) {
            assert(s.filter(p)[rest.filter(p).len() as int] == s.last());
            assert(s[s.len() - 1] == s.last());
        }
    }
}

/// The contents of each of a list of vectors.
pub open spec fn seqs<T>(v: Seq<Vec<T>>) -> Seq<Seq<T>> {
    v.map_values(|x: Vec<T>| x@)
}

/// The view of a result's value, with its error as it is.
pub open spec fn view_result<T: View, E>(r: Result<T, E>) -> Result<T::V, E> {
    match r {
        Ok(t) => Ok(t@),
        Err(e) => Err(e),
    }
}

/// The views of the values in a list of results.
pub open spec fn view_results<T: View, E>(v: Seq<Result<T, E>>) -> Seq<Result<T::V, E>> {
    v.map_values(|r: Result<T, E>| view_result(r))
}

/// The characters of `s`.
pub fn chars(s: &str) -> (r: Vec<char>)
    ensures
        r@ == s@,
{
    let mut r: Vec<char> = Vec::new();
    for c in it: s.chars()
        invariant
            it.seq() == s@,
            r@ == s@.take(it.index() as int),
    {
        r.push(c);
    }
    r
}

/// The items of `s` from `from` up to `to`.
pub fn copied<T: Copy>(s: &[T], from: usize, to: usize) -> (r: Vec<T>)
    requires
        from <= to <= s@.len(),
    ensures
        r@ == s@.subrange(from as int, to as int),
{
    let mut r: Vec<T> = Vec::new();
    let mut i: usize = from;
    while i < to
        invariant
            from <= i <= to <= s@.len(),
            r@ == s@.subrange(from as int, i as int),
        decreases to - i,
    {
        r.push(s[i]);
        i += 1;
    }
    r
}

/// The contents of each of a list of lists of vectors.
pub open spec fn seqs2<T>(v: Seq<Vec<Vec<T>>>) -> Seq<Seq<Seq<T>>> {
    v.map_values(|x: Vec<Vec<T>>| seqs(x@))
}

/// The values of `v` from the last to the first.
pub fn reversed<T>(v: Vec<T>) -> (r: Vec<T>)
    ensures
        r@ == v@.reverse(),
{
    let ghost all = v@;
    let mut v = v;
    let mut r: Vec<T> = Vec::new();
    while v.len() > 0
        invariant
            v@.len() <= all.len(),
            v@ == all.take(v@.len() as int),
            r@ == all.skip(v@.len() as int).reverse(),
        decreases v@.len(),
    {
        let ghost n = v@.len() as int;
        if let Some(x) = v.pop() {
            r.push(x);
            assert(r@ =~= all.skip(n - 1).reverse());
            assert(v@ =~= all.take(n - 1));
        }
    }
    assert(all.skip(0) =~= all);
    r
}

/// A copy of a list of vectors.
pub fn copied_list<T: Copy>(v: &Vec<Vec<T>>) -> (r: Vec<Vec<T>>)
    ensures
        seqs(r@) == seqs(v@),
{
    let mut r: Vec<Vec<T>> = Vec::new();
    let mut i: usize = 0;
    while i < v.len()
        invariant
            i <= v@.len(),
            seqs(r@) == seqs(v@).take(i as int),
        decreases v@.len() - i,
    {
        let item = copied(&v[i], 0, v[i].len());
        let ghost before = seqs(r@);
        assert(item@ =~= v@[i as int]@);
        r.push(item);
        assert(seqs(r@) =~= before.push(seqs(v@)[i as int]));
        assert(seqs(v@).take(i + 1) =~= before.push(seqs(v@)[i as int]));
        i += 1;
    }
    r
}

/// `String::push` appends a character.
pub assume_specification[ String::push ](s: &mut String, ch: char)
    ensures
        final(s)@ == old(s)@.push(ch),
;

/// Appends characters to a string.
pub fn push_chars(s: &mut String, chars: &[char])
    ensures
        final(s)@ == old(s)@ + chars@,
{
    let ghost before = s@;
    let mut i: usize = 0;
    assert(before + chars@.take(0) =~= before);
    while i < chars.len()
        invariant
            i <= chars@.len(),
            s@ == before + chars@.take(i as int),
        decreases chars@.len() - i,
    {
        s.push(chars[i]);
        assert(s@ =~= before + chars@.take(i + 1));
        i += 1;
    }
    assert(chars@.take(i as int) =~= chars@);
}

/// The string of the characters.
pub fn string(chars: &[char]) -> (r: String)
    ensures
        r@ == chars@,
{
    let mut r = String::new();
    push_chars(&mut r, chars);
    assert(r@ =~= chars@);
    r
}

/// The characters with Unicode's `White_Space` property.
pub open spec fn is_white_space(c: char) -> bool {
    ||| '\u{9}' <= c <= '\u{d}'
    ||| c == ' '
    ||| c == '\u{85}'
    ||| c == '\u{a0}'
    ||| c == '\u{1680}'
    ||| '\u{2000}' <= c <= '\u{200a}'
    ||| c == '\u{2028}'
    ||| c == '\u{2029}'
    ||| c == '\u{202f}'
    ||| c == '\u{205f}'
    ||| c == '\u{3000}'
}

/// Whether the character is white space.
pub fn white_space(c: char) -> (r: bool)
    ensures
        r == is_white_space(c),
{
    ('\u{9}' <= c && c <= '\u{d}') || c == ' ' || c == '\u{85}' || c == '\u{a0}' || c == '\u{1680}' || (
    '\u{2000}' <= c && c <= '\u{200a}') || c == '\u{2028}' || c == '\u{2029}' || c == '\u{202f}' || c
        == '\u{205f}' || c == '\u{3000}'
}

/// How much white space the characters start with.
pub open spec fn leading_space(s: Seq<char>) -> nat {
    run(s, |c: char| is_white_space(c))
}

/// How many characters stand before the first white space.
pub open spec fn before_space(s: Seq<char>) -> nat {
    run(s, |c: char| !is_white_space(c))
}

/// The characters without the white space that they start with.
pub open spec fn trim_start(s: Seq<char>) -> Seq<char> {
    s.skip(leading_space(s) as int)
}

/// The number of characters from `from` on that are white space, or that are not.
pub fn space_run(s: &[char], from: usize, space: bool) -> (r: usize)
    requires
        from <= s@.len(),
    ensures
        r <= s@.len() - from,
        r == (if space {
            leading_space(s@.skip(from as int))
        } else {
            before_space(s@.skip(from as int))
        }),
{
    let ghost rest = s@.skip(from as int);
    let mut r: usize = 0;
    while r < s.len() - from && white_space(s[from + r]) == space
        invariant
            from <= s@.len(),
            r <= s@.len() - from,
            rest == s@.skip(from as int),
            forall|i: int| 0 <= i < r ==> is_white_space(#[trigger] rest[i]) == space,
        decreases s@.len() - from - r,
    {
        assert(rest[r as int] == s@[from + r]);
        r += 1;
    }
    proof {
        if r < rest.len() {
            assert(rest[r as int] == s@[from + r]);
        }
        if space {
            lemma_run_is(rest, |c: char| is_white_space(c), r as nat);
        } else {
            lemma_run_is(rest, |c: char| !is_white_space(c), r as nat);
        }
    }
    r
}

/// The lines of a text. A line ends with a newline, before which a carriage return is dropped; the
/// last line need not.
pub open spec fn lines_of(s: Seq<char>) -> Seq<Seq<char>>
    decreases s.len(),
    via lines_of_decreases
{
    if s.len() == 0 {
        seq![]
    } else {
        let n = run(s, |c: char| c != '\n') as int;
        let line = s.take(n);
        if n == s.len() {
            seq![line]
        } else {
            seq![without_return(line)] + lines_of(s.skip(n + 1))
        }
    }
}

#[via_fn]
proof fn lines_of_decreases(s: Seq<char>) {
    lemma_run(s, |c: char| c != '\n');
}

/// A line without the carriage return that it ends with.
pub open spec fn without_return(line: Seq<char>) -> Seq<char> {
    if line.len() > 0 && line.last() == '\r' {
        line.drop_last()
    } else {
        line
    }
}

/// The lines of a text.
pub fn lines(text: &[char]) -> (r: Vec<Vec<char>>)
    ensures
        seqs(r@) == lines_of(text@),
{
    let len = text.len();
    let mut r: Vec<Vec<char>> = Vec::new();
    let mut pos: usize = 0;
    proof {
        assert(text@.skip(0) =~= text@);
        assert(seqs(r@) + lines_of(text@) =~= lines_of(text@));
    }
    while pos < len
        invariant
            len == text@.len(),
            pos <= len,
            lines_of(text@) == seqs(r@) + lines_of(text@.skip(pos as int)),
        decreases len - pos,
    {
        let ghost rest = text@.skip(pos as int);
        let ghost before = seqs(r@);
        let ghost p = |c: char| c != '\n';
        let mut end = pos;
        while end < len && text[end] != '\n'
            invariant
                len == text@.len(),
                pos <= end <= len,
                rest == text@.skip(pos as int),
                forall|i: int| 0 <= i < end - pos ==> #[trigger] rest[i] != '\n',
            decreases len - end,
        {
            assert(rest[end - pos] == text@[end as int]);
            end += 1;
        }
        let ghost n = end - pos;
        proof {
            if end < len {
                assert(rest[n] == text@[end as int]);
            }
            lemma_run_is(rest, p, n as nat);
            assert(rest.take(n) =~= text@.subrange(pos as int, end as int));
        }
        if end == len {
            r.push(copied(text, pos, end));
            proof {
                assert(seqs(r@) =~= before.push(rest.take(n)));
                assert(lines_of(text@.skip(end as int)) =~= seq![]);
                assert(seqs(r@) + lines_of(text@.skip(end as int)) =~= before + seq![rest.take(n)]);
            }
            pos = end;
        } else {
            let stop = if end > pos && text[end - 1] == '\r' {
                end - 1
            } else {
                end
            };
            r.push(copied(text, pos, stop));
            proof {
                let line = rest.take(n);
                if n > 0 {
                    assert(line.last() == text@[end - 1]);
                }
                assert(without_return(line) =~= text@.subrange(pos as int, stop as int));
                assert(seqs(r@) =~= before.push(without_return(line)));
                assert(rest.skip(n + 1) =~= text@.skip(end + 1));
                assert(seqs(r@) + lines_of(text@.skip(end + 1)) =~= before + (seq![
                    without_return(line),
                ] + lines_of(text@.skip(end + 1))));
            }
            pos = end + 1;
        }
    }
    proof {
        assert(lines_of(text@.skip(pos as int)) =~= seq![]);
        assert(seqs(r@) =~= lines_of(text@));
    }
    r
}

/// A line ends at the first newline, and a carriage return right before that is no part of it.
pub proof fn law_first_line(line: Seq<char>, rest: Seq<char>)
    requires
        forall|i: int| 0 <= i < line.len() ==> #[trigger] line[i] != '\n',
    ensures
        lines_of(line + seq!['\n'] + rest) == seq![
            if line.len() > 0 && line[line.len() - 1] == '\r' {
                line.take(line.len() - 1)
            } else {
                line
            },
        ] + lines_of(rest),
{
    let text = line + seq!['\n'] + rest;
    let p = |c: char| c != '\n';
    let n = line.len() as int;
    assert forall|i: int| 0 <= i < n implies p(#[trigger] text[i]) by {
        assert(text[i] == line[i]);
    }
    assert(text[n] == '\n');
    lemma_run_is(text, p, line.len());
    assert(text.take(n) =~= line);
    assert(text.skip(n + 1) =~= rest);
    if n > 0 {
        assert(line.last() == line[n - 1]);
        assert(line.drop_last() =~= line.take(n - 1));
    }
}

/// What has no newline in it is one line, as it is, unless it is empty.
pub proof fn law_last_line(line: Seq<char>)
    requires
        forall|i: int| 0 <= i < line.len() ==> #[trigger] line[i] != '\n',
    ensures
        line.len() > 0 ==> lines_of(line) == seq![line],
        line.len() == 0 ==> lines_of(line).len() == 0,
{
    if line.len() > 0 {
        lemma_run_is(line, |c: char| c != '\n', line.len());
        assert(line.take(line.len() as int) =~= line);
    }
}

/// White space at the start is taken off, up to the first character that is none.
pub proof fn law_trim_start(space: Seq<char>, rest: Seq<char>)
    requires
        forall|i: int| 0 <= i < space.len() ==> is_white_space(#[trigger] space[i]),
        rest.len() > 0 ==> !is_white_space(rest[0]),
    ensures
        trim_start(space + rest) == rest,
{
    let all = space + rest;
    let p = |c: char| is_white_space(c);
    let n = space.len() as int;
    assert forall|i: int| 0 <= i < n implies p(#[trigger] all[i]) by {
        assert(all[i] == space[i]);
    }
    if rest.len() > 0 {
        assert(all[n] == rest[0]);
    }
    lemma_run_is(all, p, space.len());
    assert(all.skip(n) =~= rest);
}

/// Parts, each behind a gap.
pub open spec fn woven<T>(gaps: Seq<Seq<T>>, parts: Seq<Seq<T>>) -> Seq<T>
    decreases parts.len(),
{
    if parts.len() == 0 {
        seq![]
    } else {
        gaps[0] + parts[0] + woven(gaps.skip(1), parts.skip(1))
    }
}

} // verus!
