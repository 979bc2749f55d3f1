//! What comes of preprocessing, in a file system that does not change under it.
use crate::file::FileId;
use crate::toml::line::{line_of, LineView};
use crate::toml::preprocess::{
    advanced, after_file, after_glob, opened, started, NeedView, PreprocessView, SourceView,
};
use crate::text::lines_of;
use vstd::prelude::*;

verus! {

/// A file system.
pub struct Sources {
    pub id: spec_fn(usize) -> FileId,
    pub text: spec_fn(usize) -> Seq<char>,
    pub modified: spec_fn(usize) -> Option<i128>,
    /// The files that match a glob, from the directory that a file is in.
    pub matches: spec_fn(usize, Seq<char>) -> Seq<usize>,
}

impl Sources {
    pub open spec fn open(self, path: usize) -> SourceView {
        opened(path, (self.id)(path), (self.text)(path))
    }

    /// The text that lines of a file stand for, behind the text that other files stand for. It is
    /// known if no more than `depth` steps, one after another or one inside another, lead to it.
    pub open spec fn text_within(
        self,
        depth: nat,
        path: usize,
        includes: Seq<usize>,
        lines: Seq<Seq<char>>,
    ) -> Option<Seq<char>>
        decreases depth,
    {
        if depth == 0 {
            None
        } else {
            let less = (depth - 1) as nat;
            if includes.len() > 0 {
                let first = includes[0];
                match (
                    self.text_within(less, first, seq![], lines_of((self.text)(first))),
                    self.text_within(less, path, includes.skip(1), lines),
                ) {
                    (Some(a), Some(b)) => Some(a + b),
                    _ => None,
                }
            } else if lines.len() == 0 {
                Some(seq![])
            } else {
                match line_of(lines[0]) {
                    LineView::Text(text) => match self.text_within(
                        less,
                        path,
                        seq![],
                        lines.skip(1),
                    ) {
                        Some(rest) => Some(text + seq!['\n'] + rest),
                        None => None,
                    },
                    LineView::Include(glob) => self.text_within(
                        less,
                        path,
                        (self.matches)(path, glob),
                        lines.skip(1),
                    ),
                    _ => None,
                }
            }
        }
    }

    /// The text that a file stands for: its lines, with each command in the place of the text that the
    /// files stand for that it names, one after another.
    pub open spec fn stands_for(self, path: usize, text: Seq<char>) -> bool {
        exists|depth: nat| #[trigger]
            self.text_within(depth, path, seq![], lines_of((self.text)(path))) == Some(text)
    }

    /// The state after the next request has been answered, or `None` if there is none.
    pub open spec fn step(self, s: PreprocessView) -> Option<PreprocessView> {
        let (t, need) = advanced(s);
        match need {
            Ok(NeedView::File(path)) => after_file(t, self.open(path), (self.modified)(path)),
            Ok(NeedView::Glob(path, glob)) => Some(after_glob(t, (self.matches)(path, glob))),
            Ok(NeedView::Done) => Some(t),
            Err(_) => None,
        }
    }

    /// The states of preprocessing a file, one after another.
    pub open spec fn is_begun(self, path: usize, states: Seq<PreprocessView>) -> bool {
        &&& states.len() > 0
        &&& states[0] == started(self.open(path), (self.modified)(path))
        &&& forall|i: int|
            0 <= i < states.len() - 1 ==> self.step(#[trigger] states[i]) == Some(states[i + 1])
    }

    /// The states of preprocessing a file, one after another, up to the end.
    pub open spec fn is_run(self, path: usize, states: Seq<PreprocessView>) -> bool {
        &&& self.is_begun(path, states)
        &&& advanced(states.last()).1 == Ok::<
            NeedView,
            crate::toml::preprocess::TomlErrorView,
        >(NeedView::Done)
    }

    /// The text that is left to come, from the file that is being read and those that it is read into.
    spec fn left(self, depth: nat, files: Seq<SourceView>) -> Option<Seq<char>>
        decreases files.len(),
    {
        if files.len() == 0 {
            Some(seq![])
        } else {
            let file = files.last();
            match (
                self.text_within(depth, file.path, file.includes, file.lines),
                self.left(depth, files.drop_last()),
            ) {
                (Some(a), Some(b)) => Some(a + b),
                _ => None,
            }
        }
    }

    pub(crate) proof fn lemma_deeper(
        self,
        depth: nat,
        path: usize,
        includes: Seq<usize>,
        lines: Seq<Seq<char>>,
    )
        ensures
            self.text_within(depth, path, includes, lines) matches Some(text) ==> self.text_within(
                depth + 1,
                path,
                includes,
                lines,
            ) == Some(text),
        decreases depth,
    {
        if depth > 0 {
            let less = (depth - 1) as nat;
            assert((depth + 1 - 1) as nat == depth);
            if includes.len() > 0 {
                let first = includes[0];
                self.lemma_deeper(less, first, seq![], lines_of((self.text)(first)));
                self.lemma_deeper(less, path, includes.skip(1), lines);
            } else if lines.len() > 0 {
                match line_of(lines[0]) {
                    LineView::Text(_) => {
                        self.lemma_deeper(less, path, seq![], lines.skip(1));
                    },
                    LineView::Include(glob) => {
                        self.lemma_deeper(less, path, (self.matches)(path, glob), lines.skip(1));
                    },
                    _ => {},
                }
            }
        }
    }

    proof fn lemma_left_deeper(self, depth: nat, files: Seq<SourceView>)
        ensures
            self.left(depth, files) matches Some(text) ==> self.left(depth + 1, files) == Some(text),
        decreases files.len(),
    {
        if files.len() > 0 {
            let file = files.last();
            self.lemma_deeper(depth, file.path, file.includes, file.lines);
            self.lemma_left_deeper(depth, files.drop_last());
        }
    }

    /// Going on as far as it is known how to changes nothing of the text in the end.
    proof fn lemma_advanced(self, depth: nat, s: PreprocessView, end: Seq<char>)
        requires
            advanced(s).1 is Ok,
            match advanced(s) {
                (t, Ok(NeedView::Done)) => t.toml == end,
                (t, Ok(NeedView::File(path))) => self.left(
                    depth,
                    t.files.push(self.open(path)),
                ) is Some && t.toml + self.left(depth, t.files.push(self.open(path)))->0 == end,
                (t, Ok(NeedView::Glob(path, glob))) => {
                    let files = after_glob(t, (self.matches)(path, glob)).files;
                    self.left(depth, files) is Some && t.toml + self.left(depth, files)->0 == end
                },
                _ => false,
            },
        ensures
            exists|more: nat| #[trigger]
                self.left(more, s.files) is Some && s.toml + self.left(more, s.files)->0 == end,
        decreases
                s.files.len(),
                (if s.files.len() > 0 {
                    s.files.last().lines.len()
                } else {
                    0
                }),
    {
        if s.files.len() == 0 {
            assert(s.toml + self.left(0, s.files)->0 =~= end);
        } else {
            let file = s.files.last();
            let below = s.files.drop_last();
            if file.includes.len() > 0 {
                let path = file.includes[0];
                let rest = SourceView { includes: file.includes.skip(1), ..file };
                let t = s.with_file(rest);
                let files = t.files.push(self.open(path));
                assert(files.drop_last() =~= t.files);
                assert(t.files.drop_last() =~= below);
                assert(t.files.last() == rest);
                self.lemma_left_deeper(depth, below);
                let a = self.text_within(depth, path, seq![], lines_of((self.text)(path)))->0;
                let b = self.text_within(depth, file.path, rest.includes, file.lines)->0;
                let c = self.left(depth, below)->0;
                assert(self.left(depth, t.files) == Some(b + c));
                assert(self.left(depth, files) == Some(a + (b + c)));
                assert(self.text_within(depth + 1, file.path, file.includes, file.lines) == Some(
                    a + b,
                ));
                assert(self.left(depth + 1, s.files) == Some((a + b) + c));
                assert(s.toml + ((a + b) + c) =~= s.toml + (a + (b + c)));
            } else if file.lines.len() == 0 {
                let t = PreprocessView { files: below, ..s };
                self.lemma_advanced(depth, t, end);
                let more = choose|more: nat| #[trigger]
                    self.left(more, below) is Some && s.toml + self.left(more, below)->0 == end;
                self.lemma_left_deeper(more, below);
                let c = self.left(more, below)->0;
                assert(self.text_within(more + 1, file.path, file.includes, file.lines) == Some(
                    Seq::<char>::empty(),
                ));
                assert(Seq::<char>::empty() + c =~= c);
                assert(self.left(more + 1, s.files) == Some(c));
            } else {
                let rest = SourceView { lines: file.lines.skip(1), ..file };
                let t = s.with_file(rest);
                assert(t.files.drop_last() =~= below);
                assert(t.files.last() == rest);
                assert(file.includes =~= seq![]);
                match line_of(file.lines[0]) {
                    LineView::Text(text) => {
                        let line = text + seq!['\n'];
                        let u = PreprocessView { toml: s.toml + text + seq!['\n'], ..t };
                        self.lemma_advanced(depth, u, end);
                        let more = choose|more: nat| #[trigger]
                            self.left(more, u.files) is Some && u.toml + self.left(more, u.files)->0
                                == end;
                        self.lemma_left_deeper(more, below);
                        let b = self.text_within(more, file.path, file.includes, rest.lines)->0;
                        let c = self.left(more, below)->0;
                        assert(self.left(more, u.files) == Some(b + c));
                        assert(self.left(more + 1, s.files) == Some((line + b) + c));
                        assert(s.toml + ((line + b) + c) =~= u.toml + (b + c));
                    },
                    LineView::Include(glob) => {
                        let paths = (self.matches)(file.path, glob);
                        let u = after_glob(t, paths);
                        assert(u.files.drop_last() =~= below);
                        assert(u.files.last() == (SourceView { includes: paths, ..rest }));
                        self.lemma_left_deeper(depth, below);
                        let b = self.text_within(depth, file.path, paths, rest.lines)->0;
                        let c = self.left(depth, below)->0;
                        assert(self.left(depth + 1, s.files) == Some(b + c));
                    },
                    _ => {},
                }
            }
        }
    }

    proof fn lemma_run(self, path: usize, states: Seq<PreprocessView>, i: int)
        requires
            self.is_run(path, states),
            0 <= i < states.len(),
        ensures
            exists|depth: nat| #[trigger]
                self.left(depth, states[i].files) is Some && states[i].toml + self.left(
                    depth,
                    states[i].files,
                )->0 == advanced(states.last()).0.toml,
        decreases states.len() - i,
    {
        let end = advanced(states.last()).0.toml;
        let s = states[i];
        if i == states.len() - 1 {
            self.lemma_advanced(0, s, end);
        } else {
            self.lemma_run(path, states, i + 1);
            assert(self.step(s) == Some(states[i + 1]));
            let t = states[i + 1];
            let depth = choose|depth: nat| #[trigger]
                self.left(depth, t.files) is Some && t.toml + self.left(depth, t.files)->0 == end;
            if advanced(s).1 == Ok::<NeedView, crate::toml::preprocess::TomlErrorView>(
                NeedView::Done,
            ) {
                lemma_done(s);
                assert(t.toml + self.left(depth, t.files)->0 =~= t.toml);
            }
            self.lemma_advanced(depth, s, end);
        }
    }
}

/// Nothing is left once nothing more has to be known.
proof fn lemma_done(s: PreprocessView)
    requires
        advanced(s).1 matches Ok(NeedView::Done),
    ensures
        advanced(s).0.files.len() == 0,
    decreases
            s.files.len(),
            (if s.files.len() > 0 {
                s.files.last().lines.len()
            } else {
                0
            }),
{
    if s.files.len() > 0 {
        let file = s.files.last();
        if file.includes.len() == 0 {
            if file.lines.len() == 0 {
                lemma_done(PreprocessView { files: s.files.drop_last(), ..s });
            } else {
                let rest = SourceView { lines: file.lines.skip(1), ..file };
                match line_of(file.lines[0]) {
                    LineView::Text(text) => {
                        let toml = s.toml + text + seq!['\n'];
                        assert(s.with_file(rest).files.last() == rest);
                        lemma_done(PreprocessView { toml, ..s.with_file(rest) });
                    },
                    _ => {},
                }
            }
        }
    }
}

/// Preprocessing a file to the end gives the text that the file stands for.
pub proof fn law_expansion(w: Sources, path: usize, states: Seq<PreprocessView>)
    requires
        w.is_run(path, states),
    ensures
        w.stands_for(path, advanced(states.last()).0.toml),
{
    let end = advanced(states.last()).0.toml;
    w.lemma_run(path, states, 0);
    let s = states[0];
    let file = w.open(path);
    let depth = choose|depth: nat| #[trigger]
        w.left(depth, s.files) is Some && s.toml + w.left(depth, s.files)->0 == end;
    assert(s.files.last() == file);
    assert(s.files.drop_last() =~= seq![]);
    let text = w.text_within(depth, path, seq![], lines_of((w.text)(path)));
    assert(text is Some);
    let none = Seq::<char>::empty();
    assert(w.left(depth, s.files.drop_last()) == Some(none));
    assert(w.left(depth, s.files) == Some(text->0 + none));
    assert(none + (text->0 + none) =~= text->0);
}

/// A file stands for one text at most.
pub proof fn law_expansion_unique(w: Sources, path: usize, a: Seq<char>, b: Seq<char>)
    requires
        w.stands_for(path, a),
        w.stands_for(path, b),
    ensures
        a == b,
{
    let lines = lines_of((w.text)(path));
    let m = choose|depth: nat| #[trigger]
        w.text_within(depth, path, seq![], lines) == Some(a);
    let n = choose|depth: nat| #[trigger]
        w.text_within(depth, path, seq![], lines) == Some(b);
    lemma_deepest(w, path, m, n);
    lemma_deepest(w, path, n, m);
}

proof fn lemma_deepest(w: Sources, path: usize, m: nat, n: nat)
    ensures
        m <= n ==> (w.text_within(m, path, seq![], lines_of((w.text)(path))) matches Some(text)
            ==> w.text_within(n, path, seq![], lines_of((w.text)(path))) == Some(text)),
    decreases n,
{
    if m < n {
        lemma_deepest(w, path, m, (n - 1) as nat);
        w.lemma_deeper((n - 1) as nat, path, seq![], lines_of((w.text)(path)));
    }
}

proof fn lemma_advanced_modified(s: PreprocessView)
    ensures
        advanced(s).0.modified == s.modified,
    decreases
            s.files.len(),
            (if s.files.len() > 0 {
                s.files.last().lines.len()
            } else {
                0
            }),
{
    if s.files.len() > 0 {
        let file = s.files.last();
        if file.includes.len() == 0 {
            if file.lines.len() == 0 {
                lemma_advanced_modified(PreprocessView { files: s.files.drop_last(), ..s });
            } else {
                let rest = SourceView { lines: file.lines.skip(1), ..file };
                if let LineView::Text(text) = line_of(file.lines[0]) {
                    let toml = s.toml + text + seq!['\n'];
                    assert(s.with_file(rest).files.last() == rest);
                    lemma_advanced_modified(PreprocessView { toml, ..s.with_file(rest) });
                }
            }
        }
    }
}

/// The file is read next.
pub open spec fn is_read(s: PreprocessView, path: usize) -> bool {
    advanced(s).1 == Ok::<NeedView, crate::toml::preprocess::TomlErrorView>(NeedView::File(path))
}

impl Sources {
    /// The time is when the last was modified of a file and of those that are read in the first `n`
    /// states. It is known if it is known of all of them.
    pub open spec fn is_latest(
        self,
        path: usize,
        states: Seq<PreprocessView>,
        n: int,
        modified: Option<i128>,
    ) -> bool {
        match modified {
            Some(t) => {
                &&& (self.modified)(path) matches Some(u) && u <= t
                &&& forall|i: int, p: usize|
                    0 <= i < n && #[trigger] is_read(states[i], p) ==> ((self.modified)(
                        p,
                    ) matches Some(u) && u <= t)
                &&& (self.modified)(path) == Some(t) || exists|i: int, p: usize|
                    0 <= i < n && #[trigger] is_read(states[i], p) && (self.modified)(p) == Some(t)
            },
            None => (self.modified)(path) is None || exists|i: int, p: usize|
                0 <= i < n && #[trigger] is_read(states[i], p) && (self.modified)(p) is None,
        }
    }
}

proof fn lemma_modified(w: Sources, path: usize, states: Seq<PreprocessView>, n: int)
    requires
        w.is_run(path, states),
        0 <= n < states.len(),
    ensures
        w.is_latest(path, states, n, states[n].modified),
    decreases n,
{
    if n > 0 {
        lemma_modified(w, path, states, n - 1);
        let s = states[n - 1];
        lemma_advanced_modified(s);
        assert(w.step(s) == Some(states[n - 1 + 1]));
        if let Ok(NeedView::File(p)) = advanced(s).1 {
            assert(is_read(states[n - 1], p));
        }
    }
}

/// The time that preprocessing ends with is when the last of the files that were read was modified. It
/// is unknown exactly if it is unknown of one of them.
pub proof fn law_modified(w: Sources, path: usize, states: Seq<PreprocessView>)
    requires
        w.is_run(path, states),
    ensures
        w.is_latest(path, states, states.len() as int, advanced(states.last()).0.modified),
{
    let n = states.len() - 1;
    lemma_modified(w, path, states, n);
    lemma_advanced_modified(states[n]);
    assert(states.last() == states[n]);
}

} // verus!
