//! Preprocessing does not come to its end if a file is read into itself.
use crate::text::lines_of;
use crate::toml::expansion::Sources;
use crate::toml::line::{line_of, LineView};
use crate::toml::preprocess::{
    advanced, after_glob, is_open, NeedView, PreprocessView, SourceView,
};
use vstd::prelude::*;

verus! {

/// The files that are being read.
spec fn paths_of(files: Seq<SourceView>) -> Seq<usize> {
    files.map_values(|f: SourceView| f.path)
}

impl Sources {
    /// The files that are being read go by the ids that they have.
    spec fn has_ids(self, files: Seq<SourceView>) -> bool {
        forall|i: int| 0 <= i < files.len() ==> (#[trigger] files[i]).id == (self.id)(files[i].path)
    }

    /// A line names the file.
    spec fn line_names(self, path: usize, line: Seq<char>, other: usize) -> bool {
        line_of(line) matches LineView::Include(glob) && (self.matches)(path, glob).contains(other)
    }

    /// What is left of a file names another.
    spec fn owes(self, file: SourceView, other: usize) -> bool {
        ||| file.includes.contains(other)
        ||| exists|i: int|
            0 <= i < file.lines.len() && self.line_names(
                file.path,
                #[trigger] file.lines[i],
                other,
            )
    }

    /// The last of a chain of files is being read into the one before, and so on, and what is left of it
    /// names another file.
    spec fn is_pending(self, s: PreprocessView, chain: Seq<usize>, other: usize) -> bool {
        &&& chain.len() > 0
        &&& s.files.len() >= chain.len()
        &&& paths_of(s.files.take(chain.len() as int)) == chain
        &&& self.owes(s.files[chain.len() - 1], other)
        &&& self.has_ids(s.files)
    }

    /// The last of a chain of files has just been opened.
    spec fn is_opened(self, s: PreprocessView, chain: Seq<usize>) -> bool {
        &&& chain.len() > 0
        &&& paths_of(s.files) == chain
        &&& s.files.last() == self.open(chain.last())
        &&& self.has_ids(s.files)
    }

    /// A file of which nothing has been read names what the file names.
    proof fn lemma_owes_all(self, path: usize, other: usize)
        requires
            self.names(path, other),
        ensures
            self.owes(self.open(path), other),
    {
        let file = self.open(path);
        let lines = lines_of((self.text)(path));
        let (i, glob) = choose|i: int, glob: Seq<char>|
            0 <= i < lines.len() && line_of(#[trigger] lines[i]) == LineView::Include(glob) && (
            #[trigger] (self.matches)(path, glob)).contains(other);
        assert(self.line_names(path, file.lines[i], other));
    }

    /// Another file in the place of the one that is being read changes nothing of those before it.
    proof fn lemma_with_file(self, s: PreprocessView, rest: SourceView, chain: Seq<usize>, other: usize)
        requires
            self.is_pending(s, chain, other),
            rest.path == s.files.last().path,
            rest.id == s.files.last().id,
            s.files.len() == chain.len() ==> self.owes(rest, other),
        ensures
            self.is_pending(s.with_file(rest), chain, other),
    {
        let t = s.with_file(rest);
        let n = chain.len() as int;
        let top = s.files.len() - 1;
        assert forall|i: int| 0 <= i < t.files.len() implies (#[trigger] t.files[i]).id == (self.id)(
            t.files[i].path,
        ) by {
            assert(s.files[i].id == (self.id)(s.files[i].path));
        }
        assert forall|i: int| 0 <= i < n implies t.files[i].path == #[trigger] chain[i] by {
            assert(paths_of(s.files.take(n))[i] == s.files[i].path);
        }
        assert(paths_of(t.files.take(n)) =~= chain);
        if n - 1 < top {
            assert(t.files[n - 1] == s.files[n - 1]);
        }
    }

    /// Going on as far as it is known how to, the file that is named is not passed over.
    proof fn lemma_advanced_pending(self, s: PreprocessView, chain: Seq<usize>, other: usize)
        requires
            self.is_pending(s, chain, other),
        ensures
            match advanced(s) {
                (t, Ok(NeedView::File(path))) => self.is_pending(t, chain, other) || (path == other
                    && paths_of(t.files) == chain && self.has_ids(t.files)),
                (t, Ok(NeedView::Glob(path, glob))) => self.is_pending(
                    after_glob(t, (self.matches)(path, glob)),
                    chain,
                    other,
                ),
                (_, Ok(NeedView::Done)) => false,
                _ => true,
            },
        decreases
                s.files.len(),
                (if s.files.len() > 0 {
                    s.files.last().lines.len()
                } else {
                    0
                }),
    {
        let file = s.files.last();
        let n = chain.len() as int;
        let is_top = s.files.len() == n;
        if file.includes.len() > 0 {
            let rest = SourceView { includes: file.includes.skip(1), ..file };
            let t = s.with_file(rest);
            if !is_top || self.owes(rest, other) {
                self.lemma_with_file(s, rest, chain, other);
            } else {
                // The first of the files to read is the one that is named.
                assert(file.includes[0] == other) by {
                    if file.includes.contains(other) {
                        let k = choose|k: int|
                            0 <= k < file.includes.len() && file.includes[k] == other;
                        if k > 0 {
                            assert(rest.includes[k - 1] == other);
                        }
                    } else {
                        let k = choose|k: int|
                            0 <= k < file.lines.len() && self.line_names(
                                file.path,
                                #[trigger] file.lines[k],
                                other,
                            );
                        assert(self.line_names(rest.path, rest.lines[k], other));
                    }
                }
                assert(s.files.take(n) =~= s.files);
                assert(paths_of(t.files) =~= paths_of(s.files));
                assert forall|i: int| 0 <= i < t.files.len() implies (#[trigger] t.files[i]).id == (
                self.id)(t.files[i].path) by {
                    assert(s.files[i].id == (self.id)(s.files[i].path));
                }
            }
        } else if file.lines.len() == 0 {
            assert(!is_top);
            let t = PreprocessView { files: s.files.drop_last(), ..s };
            assert(t.files.take(n) =~= s.files.take(n));
            assert(t.files[n - 1] == s.files[n - 1]);
            assert forall|i: int| 0 <= i < t.files.len() implies (#[trigger] t.files[i]).id == (
            self.id)(t.files[i].path) by {
                assert(s.files[i].id == (self.id)(s.files[i].path));
            }
            self.lemma_advanced_pending(t, chain, other);
        } else {
            let rest = SourceView { lines: file.lines.skip(1), ..file };
            let t = s.with_file(rest);
            let line = file.lines[0];
            if is_top {
                let k = choose|k: int|
                    0 <= k < file.lines.len() && self.line_names(
                        file.path,
                        #[trigger] file.lines[k],
                        other,
                    );
                if k > 0 {
                    assert(rest.lines[k - 1] == file.lines[k]);
                    assert(self.line_names(rest.path, rest.lines[k - 1], other));
                }
            }
            match line_of(line) {
                LineView::Text(text) => {
                    self.lemma_with_file(s, rest, chain, other);
                    let u = PreprocessView { toml: s.toml + text + seq!['\n'], ..t };
                    assert(u.files.last() == rest);
                    self.lemma_advanced_pending(u, chain, other);
                },
                LineView::Include(glob) => {
                    let paths = (self.matches)(file.path, glob);
                    let new = SourceView { includes: paths, ..rest };
                    assert(t.files.last() == rest);
                    assert(after_glob(t, paths).files =~= s.with_file(new).files);
                    if is_top {
                        if self.owes(rest, other) {
                            let k = choose|k: int|
                                0 <= k < rest.lines.len() && self.line_names(
                                    rest.path,
                                    #[trigger] rest.lines[k],
                                    other,
                                );
                            assert(self.line_names(new.path, new.lines[k], other));
                        } else {
                            assert(self.line_names(file.path, line, other));
                        }
                    }
                    self.lemma_with_file(s, new, chain, other);
                },
                _ => {},
            }
        }
    }

    /// A step either opens the file that is named or leaves it to be opened.
    proof fn lemma_step_pending(
        self,
        s: PreprocessView,
        t: PreprocessView,
        chain: Seq<usize>,
        other: usize,
    )
        requires
            self.is_pending(s, chain, other),
            self.step(s) == Some(t),
        ensures
            self.is_pending(t, chain, other) || (self.is_opened(t, chain.push(other)) && forall|i: int|
                0 <= i < chain.len() ==> (self.id)(#[trigger] chain[i]) != (self.id)(other)),
    {
        self.lemma_advanced_pending(s, chain, other);
        let (u, need) = advanced(s);
        if let Ok(NeedView::File(path)) = need {
            let file = self.open(path);
            assert(t.files == u.files.push(file));
            assert forall|i: int| 0 <= i < t.files.len() && self.has_ids(u.files) implies (
            #[trigger] t.files[i]).id == (self.id)(t.files[i].path) by {
                if i < u.files.len() {
                    assert(t.files[i] == u.files[i]);
                }
            }
            if self.is_pending(u, chain, other) {
                let n = chain.len() as int;
                assert(t.files.take(n) =~= u.files.take(n));
                assert(t.files[n - 1] == u.files[n - 1]);
            } else {
                assert(paths_of(t.files) =~= chain.push(other));
                assert forall|i: int| 0 <= i < chain.len() implies (self.id)(#[trigger] chain[i]) != (
                self.id)(other) by {
                    assert(paths_of(u.files)[i] == u.files[i].path);
                    assert(!is_open(u.files, file.id));
                    assert(u.files[i].id != file.id);
                }
            }
        }
    }

    /// A file that is named is opened before the end.
    proof fn lemma_opens(
        self,
        path: usize,
        states: Seq<PreprocessView>,
        i: int,
        chain: Seq<usize>,
        other: usize,
    )
        requires
            self.is_run(path, states),
            0 <= i < states.len(),
            self.is_pending(states[i], chain, other),
        ensures
            exists|j: int|
                0 <= j < states.len() && self.is_opened(#[trigger] states[j], chain.push(other)),
            forall|k: int|
                0 <= k < chain.len() ==> (self.id)(#[trigger] chain[k]) != (self.id)(other),
        decreases states.len() - i,
    {
        if i == states.len() - 1 {
            self.lemma_advanced_pending(states[i], chain, other);
        } else {
            assert(self.step(states[i]) == Some(states[i + 1]));
            self.lemma_step_pending(states[i], states[i + 1], chain, other);
            if self.is_pending(states[i + 1], chain, other) {
                self.lemma_opens(path, states, i + 1, chain, other);
            }
        }
    }

    /// Preprocessing that comes to its end opens every chain of files that starts at the file.
    proof fn lemma_chain(self, path: usize, states: Seq<PreprocessView>, chain: Seq<usize>)
        requires
            self.is_run(path, states),
            chain.len() > 0,
            chain[0] == path,
            self.is_chain(chain),
        ensures
            exists|i: int| 0 <= i < states.len() && self.is_opened(#[trigger] states[i], chain),
            forall|i: int, j: int|
                0 <= i < j < chain.len() ==> (self.id)(#[trigger] chain[i]) != (self.id)(
                    #[trigger] chain[j],
                ),
        decreases chain.len(),
    {
        let n = chain.len() - 1;
        if n == 0 {
            let s = states[0];
            assert(paths_of(s.files) =~= chain);
            assert(self.is_opened(s, chain));
        } else {
            let before = chain.drop_last();
            let other = chain[n];
            assert forall|i: int| 0 <= i < before.len() - 1 implies self.names(
                #[trigger] before[i],
                before[i + 1],
            ) by {
                assert(self.names(chain[i], chain[i + 1]));
            }
            self.lemma_chain(path, states, before);
            let i = choose|i: int|
                0 <= i < states.len() && self.is_opened(#[trigger] states[i], before);
            let s = states[i];
            assert(self.names(chain[n - 1], chain[n - 1 + 1]));
            self.lemma_owes_all(before.last(), other);
            assert(s.files.len() == before.len()) by {
                assert(paths_of(s.files).len() == s.files.len());
            }
            assert(s.files.take(before.len() as int) =~= s.files);
            assert(self.is_pending(s, before, other));
            self.lemma_opens(path, states, i, before, other);
            assert(before.push(other) =~= chain);
            assert forall|i: int, j: int| 0 <= i < j < chain.len() implies (self.id)(
                #[trigger] chain[i],
            ) != (self.id)(#[trigger] chain[j]) by {
                assert(before[i] == chain[i]);
                if j < n {
                    assert(before[j] == chain[j]);
                }
            }
        }
    }
}

/// Preprocessing only ever comes to its end if no file is read into itself.
pub proof fn law_loop_refused(w: Sources, path: usize, states: Seq<PreprocessView>)
    requires
        w.is_run(path, states),
    ensures
        w.is_loop_free(path),
{
    assert forall|paths: Seq<usize>, i: int, j: int|
        paths.len() > 0 && paths[0] == path && #[trigger] w.is_chain(paths) && 0 <= i < j
            < paths.len() implies (w.id)(#[trigger] paths[i]) != (w.id)(#[trigger] paths[j]) by {
        w.lemma_chain(path, states, paths);
    }
}

} // verus!
