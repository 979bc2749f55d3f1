//! Preprocessing comes to its end, if no file is read into itself.
use crate::text::{is_white_space, lemma_run_is, lines_of};
use crate::toml::expansion::Sources;
use crate::toml::line::{
    has_hashes, include_line, law_include_line, law_plain, line_of, LineView,
};
use crate::toml::preprocess::{
    advanced, after_file, after_glob, is_open, started, PreprocessView, SourceView,
};
use vstd::prelude::*;

verus! {

impl Sources {
    /// A line of a file names another file.
    pub open spec fn names(self, path: usize, other: usize) -> bool {
        exists|i: int, glob: Seq<char>|
            0 <= i < lines_of((self.text)(path)).len() && line_of(
                #[trigger] lines_of((self.text)(path))[i],
            ) == LineView::Include(glob) && (#[trigger] (self.matches)(path, glob)).contains(other)
    }

    /// Each of the files names the next.
    pub open spec fn is_chain(self, paths: Seq<usize>) -> bool {
        forall|i: int| 0 <= i < paths.len() - 1 ==> self.names(#[trigger] paths[i], paths[i + 1])
    }

    /// No file that the file leads to leads to itself.
    pub open spec fn is_loop_free(self, path: usize) -> bool {
        forall|paths: Seq<usize>, i: int, j: int|
            paths.len() > 0 && paths[0] == path && #[trigger] self.is_chain(paths) && 0 <= i < j
                < paths.len() ==> (self.id)(#[trigger] paths[i]) != (self.id)(#[trigger] paths[j])
    }

    /// What is left of a file is some of what is in it.
    spec fn is_part(self, file: SourceView) -> bool {
        &&& file.id == (self.id)(file.path)
        &&& forall|i: int|
            0 <= i < file.lines.len() ==> lines_of((self.text)(file.path)).contains(
                #[trigger] file.lines[i],
            )
        &&& forall|i: int|
            0 <= i < file.includes.len() ==> self.names(file.path, #[trigger] file.includes[i])
    }

    /// The files are each read because the one before names it, the first one being `path`.
    spec fn are_nested(self, path: usize, files: Seq<SourceView>) -> bool {
        &&& files.len() > 0 ==> files[0].path == path
        &&& forall|i: int| 0 <= i < files.len() ==> self.is_part(#[trigger] files[i])
        &&& self.is_chain(paths_of(files))
    }

    /// One state leads to the other in `n` steps.
    spec fn leads(self, n: nat, s: PreprocessView, t: PreprocessView) -> bool
        decreases n,
    {
        if n == 0 {
            advanced(s) == advanced(t)
        } else {
            self.step(s) matches Some(u) && self.leads((n - 1) as nat, u, t)
        }
    }

    proof fn lemma_leads_on(
        self,
        m: nat,
        n: nat,
        s: PreprocessView,
        t: PreprocessView,
        u: PreprocessView,
    )
        requires
            self.leads(m, s, t),
            self.leads(n, t, u),
        ensures
            self.leads(m + n, s, u),
        decreases m,
    {
        if m > 0 {
            self.lemma_leads_on((m - 1) as nat, n, self.step(s)->0, t, u);
        }
    }

    /// The state once the file that is being read has come to its end.
    spec fn is_read(self, n: nat, s: PreprocessView, text: Seq<char>, t: PreprocessView) -> bool {
        &&& self.leads(n, s, t)
        &&& t.files == s.files.drop_last()
        &&& t.toml == s.toml + text
    }

    /// Putting something else that is part of the file in the place of what is left of it.
    proof fn lemma_nested_rest(self, path: usize, files: Seq<SourceView>, rest: SourceView)
        requires
            files.len() > 0,
            self.are_nested(path, files),
            rest.path == files.last().path,
            self.is_part(rest),
        ensures
            self.are_nested(path, files.drop_last().push(rest)),
    {
        let new = files.drop_last().push(rest);
        assert(paths_of(new) =~= paths_of(files));
        assert forall|i: int| 0 <= i < new.len() implies self.is_part(#[trigger] new[i]) by {
            if i < files.len() - 1 {
                assert(new[i] == files[i]);
            }
        }
    }

    proof fn lemma_nested_push(self, path: usize, files: Seq<SourceView>, other: usize)
        requires
            files.len() > 0,
            self.are_nested(path, files),
            self.is_loop_free(path),
            self.names(files.last().path, other),
        ensures
            self.are_nested(path, files.push(self.open(other))),
            !is_open(files, (self.id)(other)),
    {
        let file = self.open(other);
        let new = files.push(file);
        let paths = paths_of(new);
        let n = files.len() as int;
        assert forall|i: int| 0 <= i < paths.len() - 1 implies self.names(
            #[trigger] paths[i],
            paths[i + 1],
        ) by {
            assert(paths_of(files)[i] == paths[i]);
            if i < n - 1 {
                assert(paths_of(files)[i + 1] == paths[i + 1]);
            }
        }
        assert forall|i: int| 0 <= i < new.len() implies self.is_part(#[trigger] new[i]) by {
            if i < n {
                assert(new[i] == files[i]);
            } else {
                assert forall|k: int| 0 <= k < file.lines.len() implies lines_of(
                    (self.text)(other),
                ).contains(#[trigger] file.lines[k]) by {}
            }
        }
        if is_open(files, (self.id)(other)) {
            let i = choose|i: int|
                0 <= i < files.len() && (#[trigger] files[i]).id == (self.id)(other);
            assert(self.is_part(files[i]));
            assert(paths[i] == files[i].path);
            assert(paths[n] == other);
            assert(paths[0] == path);
        }
    }

    /// A file of which the text that is left is known comes to its end, with that text.
    proof fn lemma_read(self, path: usize, depth: nat, s: PreprocessView, text: Seq<char>) -> (r: (
        nat,
        PreprocessView,
    ))
        requires
            s.files.len() > 0,
            self.are_nested(path, s.files),
            self.is_loop_free(path),
            self.text_within(depth, s.files.last().path, s.files.last().includes, s.files.last().lines)
                == Some(text),
        ensures
            self.is_read(r.0, s, text, r.1),
        decreases depth,
    {
        let file = s.files.last();
        let below = s.files.drop_last();
        let less = (depth - 1) as nat;
        assert(s.files[s.files.len() - 1] == file);
        assert(self.is_part(file));
        if file.includes.len() > 0 {
            let other = file.includes[0];
            let rest = SourceView { includes: file.includes.skip(1), ..file };
            let t = s.with_file(rest);
            let u = after_file(t, self.open(other), (self.modified)(other))->0;
            assert(self.is_part(rest)) by {
                assert forall|i: int| 0 <= i < rest.includes.len() implies self.names(
                    file.path,
                    #[trigger] rest.includes[i],
                ) by {
                    assert(rest.includes[i] == file.includes[i + 1]);
                }
            }
            self.lemma_nested_rest(path, s.files, rest);
            assert(t.files.last() == rest);
            assert(self.names(file.path, file.includes[0]));
            self.lemma_nested_push(path, t.files, other);
            assert(self.step(s) == Some(u));
            let a = self.text_within(less, other, seq![], lines_of((self.text)(other)))->0;
            let b = self.text_within(less, file.path, rest.includes, file.lines)->0;
            assert(u.files.last() == self.open(other));
            assert(u.files.drop_last() =~= t.files);
            let (m, v) = self.lemma_read(path, less, u, a);
            let (n, x) = self.lemma_read(path, less, v, b);
            assert(t.files.drop_last() =~= below);
            self.lemma_leads_on(m, n, u, v, x);
            assert(s.toml + a + b =~= s.toml + (a + b));
            assert(self.leads(m + n + 1, s, x));
            (m + n + 1, x)
        } else if file.lines.len() == 0 {
            let t = PreprocessView { files: below, ..s };
            assert(s.toml + Seq::<char>::empty() =~= s.toml);
            assert(self.leads(0, s, t));
            (0, t)
        } else {
            let rest = SourceView { lines: file.lines.skip(1), ..file };
            assert(file.includes =~= seq![]);
            assert forall|i: int| 0 <= i < rest.lines.len() implies lines_of(
                (self.text)(file.path),
            ).contains(#[trigger] rest.lines[i]) by {
                assert(rest.lines[i] == file.lines[i + 1]);
            }
            let t = s.with_file(rest);
            match line_of(file.lines[0]) {
                LineView::Text(line) => {
                    let u = PreprocessView { toml: s.toml + line + seq!['\n'], ..t };
                    let b = self.text_within(less, file.path, seq![], rest.lines)->0;
                    self.lemma_nested_rest(path, s.files, rest);
                    assert(u.files.last() == rest);
                    let (n, x) = self.lemma_read(path, less, u, b);
                    assert(u.files.drop_last() =~= below);
                    assert(u.toml + b =~= s.toml + (line + seq!['\n'] + b));
                    assert(self.leads(0, s, u));
                    self.lemma_leads_on(0, n, s, u, x);
                    (n, x)
                },
                LineView::Include(glob) => {
                    let paths = (self.matches)(file.path, glob);
                    let new = SourceView { includes: paths, ..rest };
                    let u = after_glob(t, paths);
                    assert(t.files.last() == rest);
                    assert(u.files =~= below.push(new));
                    assert(self.is_part(new)) by {
                        let lines = lines_of((self.text)(file.path));
                        assert(lines.contains(file.lines[0]));
                        let k = choose|k: int| 0 <= k < lines.len() && lines[k] == file.lines[0];
                        assert forall|i: int| 0 <= i < paths.len() implies self.names(
                            file.path,
                            #[trigger] paths[i],
                        ) by {
                            assert(line_of(lines[k]) == LineView::Include(glob));
                            assert((self.matches)(file.path, glob).contains(paths[i]));
                        }
                    }
                    self.lemma_nested_rest(path, s.files, new);
                    assert(u.files.last() == new);
                    let (n, x) = self.lemma_read(path, less, u, text);
                    assert(u.files.drop_last() =~= below);
                    assert(self.step(s) == Some(u));
                    assert(self.leads(n + 1, s, x));
                    (n + 1, x)
                },
                _ => (0, s),
            }
        }
    }

    /// The states that lead from one to another.
    proof fn lemma_states(self, n: nat, s: PreprocessView, t: PreprocessView) -> (states: Seq<
        PreprocessView,
    >)
        requires
            self.leads(n, s, t),
        ensures
            states.len() > 0,
            states[0] == s,
            forall|i: int|
                0 <= i < states.len() - 1 ==> self.step(#[trigger] states[i]) == Some(states[i + 1]),
            advanced(states.last()) == advanced(t),
        decreases n,
    {
        if n == 0 {
            seq![s]
        } else {
            let u = self.step(s)->0;
            let more = self.lemma_states((n - 1) as nat, u, t);
            let states = seq![s] + more;
            assert forall|i: int| 0 <= i < states.len() - 1 implies self.step(#[trigger] states[i])
                == Some(states[i + 1]) by {
                if i > 0 {
                    assert(states[i] == more[i - 1]);
                    assert(states[i + 1] == more[i - 1 + 1]);
                }
            }
            assert(states.last() == more.last());
            states
        }
    }

    /// The text that lines of a file stand for, behind the text that other files stand for.
    pub open spec fn text_is(
        self,
        path: usize,
        includes: Seq<usize>,
        lines: Seq<Seq<char>>,
        text: Seq<char>,
    ) -> bool {
        exists|depth: nat| #[trigger]
            self.text_within(depth, path, includes, lines) == Some(text)
    }

    proof fn lemma_within(
        self,
        m: nat,
        n: nat,
        path: usize,
        includes: Seq<usize>,
        lines: Seq<Seq<char>>,
    )
        requires
            m <= n,
            self.text_within(m, path, includes, lines) is Some,
        ensures
            self.text_within(n, path, includes, lines) == self.text_within(m, path, includes, lines),
        decreases n,
    {
        if m < n {
            self.lemma_within(m, (n - 1) as nat, path, includes, lines);
            self.lemma_deeper((n - 1) as nat, path, includes, lines);
        }
    }

    /// Lines that are no commands stand for themselves, in front of others.
    proof fn lemma_plain_lines(
        self,
        path: usize,
        plain: Seq<Seq<char>>,
        lines: Seq<Seq<char>>,
        text: Seq<char>,
    )
        requires
            forall|i: int| 0 <= i < plain.len() ==> !has_hashes(#[trigger] plain[i], 2),
            self.text_is(path, seq![], lines, text),
        ensures
            self.text_is(path, seq![], plain + lines, ended(plain) + text),
        decreases plain.len(),
    {
        if plain.len() == 0 {
            assert(plain + lines =~= lines);
            assert(ended(plain) + text =~= text);
        } else {
            let rest = plain.skip(1);
            assert forall|i: int| 0 <= i < rest.len() implies !has_hashes(
                #[trigger] rest[i],
                2,
            ) by {
                assert(rest[i] == plain[i + 1]);
            }
            self.lemma_plain_lines(path, rest, lines, text);
            let all = plain + lines;
            let depth = choose|depth: nat| #[trigger]
                self.text_within(depth, path, seq![], rest + lines) == Some(ended(rest) + text);
            assert(all.skip(1) =~= rest + lines);
            assert(all[0] == plain[0]);
            law_plain(plain[0]);
            assert((depth + 1 - 1) as nat == depth);
            assert(self.text_within(depth + 1, path, seq![], all) == Some(
                plain[0] + seq!['\n'] + (ended(rest) + text),
            ));
            assert(plain[0] + seq!['\n'] + (ended(rest) + text) =~= ended(plain) + text);
        }
    }

    /// Files that are put in front of lines stand for what each of them stands for, one after another.
    proof fn lemma_includes(
        self,
        path: usize,
        includes: Seq<usize>,
        texts: Seq<Seq<char>>,
        lines: Seq<Seq<char>>,
        text: Seq<char>,
    )
        requires
            texts.len() == includes.len(),
            forall|i: int|
                0 <= i < includes.len() ==> self.stands_for(#[trigger] includes[i], texts[i]),
            self.text_is(path, seq![], lines, text),
        ensures
            self.text_is(path, includes, lines, texts.flatten() + text),
        decreases includes.len(),
    {
        if includes.len() == 0 {
            assert(includes =~= seq![]);
            assert(texts.flatten() =~= seq![]);
            assert(texts.flatten() + text =~= text);
        } else {
            let rest = includes.skip(1);
            let more = texts.skip(1);
            assert forall|i: int| 0 <= i < rest.len() implies self.stands_for(
                #[trigger] rest[i],
                more[i],
            ) by {
                assert(rest[i] == includes[i + 1]);
            }
            self.lemma_includes(path, rest, more, lines, text);
            let first = includes[0];
            let inner = lines_of((self.text)(first));
            assert(self.stands_for(includes[0], texts[0]));
            let m = choose|depth: nat| #[trigger]
                self.text_within(depth, first, seq![], inner) == Some(texts[0]);
            let n = choose|depth: nat| #[trigger]
                self.text_within(depth, path, rest, lines) == Some(more.flatten() + text);
            let depth = if m < n {
                n
            } else {
                m
            };
            self.lemma_within(m, depth, first, seq![], inner);
            self.lemma_within(n, depth, path, rest, lines);
            assert((depth + 1 - 1) as nat == depth);
            assert(self.text_within(depth + 1, path, includes, lines) == Some(
                texts[0] + (more.flatten() + text),
            ));
            assert(more =~= texts.drop_first());
            assert(texts[0] + (more.flatten() + text) =~= texts.flatten() + text);
        }
    }
}

/// The files that are being read.
spec fn paths_of(files: Seq<SourceView>) -> Seq<usize> {
    files.map_values(|f: SourceView| f.path)
}

/// Lines, with an end behind each.
pub open spec fn ended(lines: Seq<Seq<char>>) -> Seq<char>
    decreases lines.len(),
{
    if lines.len() == 0 {
        seq![]
    } else {
        lines[0] + seq!['\n'] + ended(lines.skip(1))
    }
}

/// A text without line breaks, and without a carriage return that a line break behind it would take in.
pub open spec fn is_line(line: Seq<char>) -> bool {
    !line.contains('\n') && (line.len() > 0 ==> line.last() != '\r')
}

/// Lines with an end behind each are the lines of a text, unless a line break is in one or a carriage
/// return at its end.
pub proof fn law_lines(lines: Seq<Seq<char>>)
    requires
        forall|i: int| 0 <= i < lines.len() ==> is_line(#[trigger] lines[i]),
    ensures
        lines_of(ended(lines)) == lines,
    decreases lines.len(),
{
    if lines.len() > 0 {
        let line = lines[0];
        let rest = lines.skip(1);
        let text = ended(lines);
        let p = |c: char| c != '\n';
        assert(is_line(line));
        assert forall|i: int| 0 <= i < rest.len() implies is_line(#[trigger] rest[i]) by {
            assert(rest[i] == lines[i + 1]);
        }
        law_lines(rest);
        assert forall|i: int| 0 <= i < line.len() implies p(#[trigger] text[i]) by {
            assert(text[i] == line[i]);
            assert(line.contains(line[i]));
        }
        assert(text[line.len() as int] == '\n');
        lemma_run_is(text, p, line.len());
        assert(text.take(line.len() as int) =~= line);
        assert(text.skip(line.len() as int + 1) =~= ended(rest));
        assert(lines =~= seq![line] + rest);
    }
}

/// Preprocessing a file that stands for a text comes to its end, and gives that text, if no file is
/// read into itself.
pub proof fn law_reached(w: Sources, path: usize, text: Seq<char>)
    requires
        w.stands_for(path, text),
        w.is_loop_free(path),
    ensures
        exists|states: Seq<PreprocessView>| #[trigger]
            w.is_run(path, states) && advanced(states.last()).0.toml == text,
{
    let file = w.open(path);
    let s = started(file, (w.modified)(path));
    let depth = choose|depth: nat| #[trigger]
        w.text_within(depth, path, seq![], lines_of((w.text)(path))) == Some(text);
    assert(s.files.last() == file);
    assert(w.is_part(file)) by {
        assert forall|k: int| 0 <= k < file.lines.len() implies lines_of((w.text)(path)).contains(
            #[trigger] file.lines[k],
        ) by {}
    }
    let (n, t) = w.lemma_read(path, depth, s, text);
    assert(t.files.len() == 0);
    assert(t.toml =~= text);
    let states = w.lemma_states(n, s, t);
    assert(w.is_run(path, states));
}

/// The files that a line names are put in its place, one after another, each as the text that it stands
/// for, and the lines before and behind it are kept. Preprocessing comes to that end, if no file is read
/// into itself.
pub proof fn law_include(
    w: Sources,
    path: usize,
    before: Seq<Seq<char>>,
    line: Seq<char>,
    behind: Seq<Seq<char>>,
    glob: Seq<char>,
    texts: Seq<Seq<char>>,
)
    requires
        lines_of((w.text)(path)) == before + seq![line] + behind,
        forall|i: int| 0 <= i < before.len() ==> !has_hashes(#[trigger] before[i], 2),
        forall|i: int| 0 <= i < behind.len() ==> !has_hashes(#[trigger] behind[i], 2),
        line_of(line) == LineView::Include(glob),
        texts.len() == (w.matches)(path, glob).len(),
        forall|i: int|
            0 <= i < texts.len() ==> w.stands_for((w.matches)(path, glob)[i], #[trigger] texts[i]),
        w.is_loop_free(path),
    ensures
        exists|states: Seq<PreprocessView>| #[trigger]
            w.is_run(path, states) && advanced(states.last()).0.toml == ended(before)
                + texts.flatten() + ended(behind),
{
    let paths = (w.matches)(path, glob);
    let none: Seq<Seq<char>> = seq![];
    assert(w.text_within(1, path, seq![], none) == Some(Seq::<char>::empty()));
    w.lemma_plain_lines(path, behind, none, seq![]);
    assert(behind + none =~= behind);
    assert(ended(behind) + seq![] =~= ended(behind));
    assert forall|i: int| 0 <= i < paths.len() implies w.stands_for(#[trigger] paths[i], texts[i]) by {
        assert(w.stands_for(paths[i], texts[i]));
    }
    w.lemma_includes(path, paths, texts, behind, ended(behind));
    let middle = texts.flatten() + ended(behind);
    let lines = seq![line] + behind;
    let depth = choose|depth: nat| #[trigger]
        w.text_within(depth, path, paths, behind) == Some(middle);
    assert(lines.skip(1) =~= behind);
    assert((depth + 1 - 1) as nat == depth);
    assert(w.text_within(depth + 1, path, seq![], lines) == Some(middle));
    w.lemma_plain_lines(path, before, lines, middle);
    assert(before + lines =~= before + seq![line] + behind);
    assert(ended(before) + middle =~= ended(before) + texts.flatten() + ended(behind));
    law_reached(w, path, ended(before) + texts.flatten() + ended(behind));
}

/// A file that is made of plain lines, a line that includes the files that match a glob, and plain lines
/// again stands for those lines with what the files stand for in between. Preprocessing comes to that
/// end, if no file is read into itself.
pub proof fn law_include_text(
    w: Sources,
    path: usize,
    before: Seq<Seq<char>>,
    glob: Seq<char>,
    behind: Seq<Seq<char>>,
    texts: Seq<Seq<char>>,
)
    requires
        (w.text)(path) == ended(before + seq![include_line(glob)] + behind),
        is_line(glob),
        glob.len() > 0 ==> !is_white_space(glob[0]),
        forall|i: int|
            0 <= i < before.len() ==> is_line(#[trigger] before[i]) && !has_hashes(before[i], 2),
        forall|i: int|
            0 <= i < behind.len() ==> is_line(#[trigger] behind[i]) && !has_hashes(behind[i], 2),
        texts.len() == (w.matches)(path, glob).len(),
        forall|i: int|
            0 <= i < texts.len() ==> w.stands_for((w.matches)(path, glob)[i], #[trigger] texts[i]),
        w.is_loop_free(path),
    ensures
        exists|states: Seq<PreprocessView>| #[trigger]
            w.is_run(path, states) && advanced(states.last()).0.toml == ended(before)
                + texts.flatten() + ended(behind),
{
    let line = include_line(glob);
    let lines = before + seq![line] + behind;
    assert(is_line(line)) by {
        if line.contains('\n') {
            let i = choose|i: int| 0 <= i < line.len() && line[i] == '\n';
            assert(i >= 10);
            assert(glob[i - 10] == '\n');
        }
        if glob.len() > 0 {
            assert(line.last() == glob.last());
        } else {
            assert(line.last() == ' ');
        }
    }
    assert forall|i: int| 0 <= i < lines.len() implies is_line(#[trigger] lines[i]) by {
        if i < before.len() {
            assert(is_line(before[i]));
        } else if i > before.len() {
            assert(lines[i] == behind[i - before.len() - 1]);
            assert(is_line(behind[i - before.len() - 1]));
        }
    }
    law_lines(lines);
    law_include_line(glob);
    law_include(w, path, before, line, behind, glob, texts);
}

} // verus!
