//! Preprocessing comes to an end.
use crate::file::{lemma_ids_few, most_ids};
use crate::text::lines_of;
use crate::toml::expansion::Sources;
use crate::toml::line::{line_of, LineView};
use crate::toml::loops::law_loop_refused;
use crate::toml::preprocess::{
    advanced, after_glob, is_open, started, NeedView, PreprocessView, SourceView,
};
use vstd::prelude::*;

verus! {

/// How many files may be read into one another below the last of so many.
spec fn room(depth: nat, n: nat) -> nat {
    if n <= depth {
        (depth - n) as nat
    } else {
        0
    }
}

/// No file is also one of those that it is read into.
spec fn are_distinct(files: Seq<SourceView>) -> bool {
    forall|i: int, j: int|
        0 <= i < j < files.len() ==> (#[trigger] files[i]).id != (#[trigger] files[j]).id
}

impl Sources {
    /// What there is to do for lines of a file, and for other files before them.
    spec fn work(
        self,
        path: usize,
        includes: Seq<usize>,
        lines: Seq<Seq<char>>,
        room: nat,
    ) -> nat
        decreases room, lines.len(), includes.len(),
    {
        if includes.len() > 0 {
            let first = includes[0];
            1 + self.work(path, includes.skip(1), lines, room) + if room > 0 {
                self.work(first, seq![], lines_of((self.text)(first)), (room - 1) as nat)
            } else {
                0
            }
        } else if lines.len() > 0 {
            let others = match line_of(lines[0]) {
                LineView::Include(glob) => (self.matches)(path, glob),
                _ => seq![],
            };
            1 + self.work(path, others, lines.skip(1), room)
        } else {
            0
        }
    }

    /// What preprocessing has yet to do.
    spec fn undone(self, depth: nat, files: Seq<SourceView>) -> nat
        decreases files.len(),
    {
        if files.len() == 0 {
            0
        } else {
            let file = files.last();
            self.work(file.path, file.includes, file.lines, room(depth, files.len()))
                + self.undone(depth, files.drop_last())
        }
    }

    proof fn lemma_undone_push(self, depth: nat, files: Seq<SourceView>, file: SourceView)
        ensures
            self.undone(depth, files.push(file)) == self.work(
                file.path,
                file.includes,
                file.lines,
                room(depth, files.len() + 1),
            ) + self.undone(depth, files),
    {
        assert(files.push(file).drop_last() =~= files);
    }

    /// Going on as far as it is known how to, and being told what has to be known, leaves less to do.
    proof fn lemma_advanced_less(self, depth: nat, s: PreprocessView)
        requires
            are_distinct(s.files),
        ensures
            match advanced(s) {
                (t, Ok(NeedView::File(path))) => {
                    &&& are_distinct(t.files)
                    &&& t.files.len() < depth ==> self.undone(depth, t.files.push(self.open(path)))
                        < self.undone(depth, s.files)
                },
                (t, Ok(NeedView::Glob(path, glob))) => {
                    let u = after_glob(t, (self.matches)(path, glob));
                    are_distinct(u.files) && self.undone(depth, u.files) < self.undone(
                        depth,
                        s.files,
                    )
                },
                _ => true,
            },
        decreases
                s.files.len(),
                (if s.files.len() > 0 {
                    s.files.last().lines.len()
                } else {
                    0
                }),
    {
        if s.files.len() > 0 {
            let file = s.files.last();
            let below = s.files.drop_last();
            if file.includes.len() > 0 {
                let rest = SourceView { includes: file.includes.skip(1), ..file };
                let t = s.with_file(rest);
                lemma_distinct_with(s, rest);
                self.lemma_undone_push(depth, below, rest);
                self.lemma_undone_push(depth, t.files, self.open(file.includes[0]));
            } else if file.lines.len() == 0 {
                self.lemma_advanced_less(depth, PreprocessView { files: below, ..s });
            } else {
                let rest = SourceView { lines: file.lines.skip(1), ..file };
                let t = s.with_file(rest);
                assert(file.includes =~= seq![]);
                lemma_distinct_with(s, rest);
                self.lemma_undone_push(depth, below, rest);
                match line_of(file.lines[0]) {
                    LineView::Text(text) => {
                        let toml = s.toml + text + seq!['\n'];
                        assert(t.files.last() == rest);
                        self.lemma_advanced_less(depth, PreprocessView { toml, ..t });
                    },
                    LineView::Include(glob) => {
                        let others = (self.matches)(file.path, glob);
                        let new = SourceView { includes: others, ..rest };
                        assert(t.files.last() == rest);
                        assert(after_glob(t, others).files =~= below.push(new));
                        lemma_distinct_with(s, new);
                        self.lemma_undone_push(depth, below, new);
                    },
                    _ => {},
                }
            }
        }
    }

    /// Every step leaves less to do.
    proof fn lemma_step_less(self, s: PreprocessView, t: PreprocessView)
        requires
            are_distinct(s.files),
            !(advanced(s).1 matches Ok(NeedView::Done)),
            self.step(s) == Some(t),
        ensures
            are_distinct(t.files),
            self.undone(most_ids(), t.files) < self.undone(most_ids(), s.files),
    {
        self.lemma_advanced_less(most_ids(), s);
        let (u, need) = advanced(s);
        if let Ok(NeedView::File(path)) = need {
            let file = self.open(path);
            assert forall|i: int, j: int| 0 <= i < j < t.files.len() implies (
            #[trigger] t.files[i]).id != (#[trigger] t.files[j]).id by {
                assert(t.files[i] == u.files[i]);
                if j < u.files.len() {
                    assert(t.files[j] == u.files[j]);
                } else {
                    assert(!is_open(u.files, file.id));
                }
            }
            lemma_height(t.files);
        }
    }

    /// Preprocessing that goes on from these states comes to an end.
    proof fn lemma_ends(self, path: usize, states: Seq<PreprocessView>) -> (all: Seq<PreprocessView>)
        requires
            self.is_begun(path, states),
            are_distinct(states.last().files),
        ensures
            self.is_begun(path, all),
            self.is_run(path, all) || self.step(all.last()) is None,
        decreases self.undone(most_ids(), states.last().files),
    {
        let s = states.last();
        if self.is_run(path, states) || self.step(s) is None {
            states
        } else {
            let t = self.step(s)->0;
            let more = states.push(t);
            assert forall|i: int| 0 <= i < more.len() - 1 implies self.step(#[trigger] more[i]) == Some(
                more[i + 1],
            ) by {
                assert(more[i] == states[i]);
                if i < states.len() - 1 {
                    assert(more[i + 1] == states[i + 1]);
                }
            }
            assert(more[0] == states[0]);
            self.lemma_step_less(s, t);
            self.lemma_ends(path, more)
        }
    }
}

proof fn lemma_distinct_with(s: PreprocessView, rest: SourceView)
    requires
        s.files.len() > 0,
        are_distinct(s.files),
        rest.id == s.files.last().id,
    ensures
        are_distinct(s.with_file(rest).files),
{
    let t = s.with_file(rest);
    assert forall|i: int, j: int| 0 <= i < j < t.files.len() implies (#[trigger] t.files[i]).id != (
    #[trigger] t.files[j]).id by {
        assert(t.files[i].id == s.files[i].id && t.files[j].id == s.files[j].id);
    }
}

/// There are no more files that are read into one another than there are ids.
proof fn lemma_height(files: Seq<SourceView>)
    requires
        are_distinct(files),
    ensures
        files.len() <= most_ids(),
{
    let open = files.map_values(|f: SourceView| f.id);
    assert forall|k: int, l: int|
        0 <= k < open.len() && 0 <= l < open.len() && k != l implies open[k] != open[l] by {
        if k < l {
            assert(files[k].id != files[l].id);
        } else {
            assert(files[l].id != files[k].id);
        }
    }
    lemma_ids_few(open);
}

/// Preprocessing a file comes to its end, or to a line or a file that is refused: a command that has no
/// name or does not exist, or a file that would be read into itself. Files may name one another in any
/// way, but there are only so many ids.
pub proof fn law_preprocess_ends(w: Sources, path: usize)
    ensures
        exists|states: Seq<PreprocessView>| #[trigger]
            w.is_begun(path, states) && (w.is_run(path, states) || w.step(states.last()) is None),
{
    let states = seq![started(w.open(path), (w.modified)(path))];
    assert(w.is_begun(path, states));
    let all = w.lemma_ends(path, states);
    assert(w.is_begun(path, all));
}

/// Preprocessing a file that leads to a file that leads to itself comes to a line or a file that is
/// refused.
pub proof fn law_loop_ends(w: Sources, path: usize)
    requires
        !w.is_loop_free(path),
    ensures
        exists|states: Seq<PreprocessView>| #[trigger]
            w.is_begun(path, states) && w.step(states.last()) is None,
{
    law_preprocess_ends(w, path);
    let states = choose|states: Seq<PreprocessView>| #[trigger]
        w.is_begun(path, states) && (w.is_run(path, states) || w.step(states.last()) is None);
    if w.is_run(path, states) {
        law_loop_refused(w, path, states);
    }
}

} // verus!
