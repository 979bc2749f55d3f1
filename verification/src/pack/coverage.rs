//! What a build builds of a file system that does not change under it.
use crate::cli::Features;
use crate::file::FileType;
use crate::order::{has_twins, lemma_name_key, lemma_name_le_total, name_le, no_twins};
use crate::pack::building::{
    after_close, after_open, after_read, entries_sorted, entry_keys, entry_of, has_id, has_skip,
    lemma_skip_same, listed, started, task, BuildView, DirView, EntryView, TaskView,
};
use crate::source::{is_skip, kind_of, law_features, law_skip, mapped_name, SourceKind};
use crate::world::{
    is_below, lemma_below_further, lemma_dir_below, lemma_dir_push, lemma_file_below,
    lemma_file_push, World,
};
use vstd::prelude::*;

verus! {

impl World {
    /// The names and types in a directory.
    pub open spec fn entries(self, dir: Seq<Seq<u8>>) -> Seq<(Seq<u8>, FileType)> {
        (self.names)(dir).map_values(|n: Seq<u8>| (n, (self.kind)(dir.push(n))))
    }

    /// The directory is marked to be left out.
    pub open spec fn is_skipped(self, features: Features, dir: Seq<Seq<u8>>) -> bool {
        has_skip(listed(features, self.entries(dir)))
    }

    /// None of the directories that the path is in is marked to be left out.
    pub open spec fn is_kept(self, features: Features, path: Seq<Seq<u8>>) -> bool {
        forall|i: int|
            0 <= i < path.len() ==> !self.is_skipped(features, #[trigger] path.take(i))
    }

    /// One state of a build leads to the other.
    pub open spec fn builds(self, s: BuildView, t: BuildView) -> bool {
        match task(s) {
            TaskView::Read(dir) => after_read(s, self.entries(dir), t),
            TaskView::Open(dir, _) => after_open(s, (self.id)(dir)) == Ok::<
                BuildView,
                Seq<Seq<u8>>,
            >(t),
            TaskView::File(_, _, _) => t == s.without_next(),
            TaskView::Close(_) => t == after_close(s),
            TaskView::Done => t == s,
        }
    }

    /// The states of a build, one after another.
    pub open spec fn is_build(self, features: Features, states: Seq<BuildView>) -> bool {
        &&& states.len() > 0
        &&& states[0] == started(features)
        &&& forall|i: int|
            0 <= i < states.len() - 1 ==> self.builds(#[trigger] states[i], states[i + 1])
    }
}

/// The file is built in one of the states.
pub open spec fn is_built(states: Seq<BuildView>, path: Seq<Seq<u8>>) -> bool {
    exists|i: int| 0 <= i < states.len() && is_file_task(task(#[trigger] states[i]), path)
}

/// The file is to be built.
pub open spec fn is_file_task(t: TaskView, path: Seq<Seq<u8>>) -> bool {
    t matches TaskView::File(p, _, _) && p == path
}

/// The directory is to be opened.
pub open spec fn is_open_task(t: TaskView, dir: Seq<Seq<u8>>) -> bool {
    t matches TaskView::Open(d, _) && d == dir
}

/// The directory is to be closed.
pub open spec fn is_close_task(t: TaskView, dir: Seq<Seq<u8>>) -> bool {
    t matches TaskView::Close(d) && d == dir
}

/// The directory is opened in one of the states.
pub open spec fn is_opened(states: Seq<BuildView>, dir: Seq<Seq<u8>>) -> bool {
    exists|i: int| 0 <= i < states.len() && is_open_task(task(#[trigger] states[i]), dir)
}

/// The directory is closed in one of the states.
pub open spec fn is_closed(states: Seq<BuildView>, dir: Seq<Seq<u8>>) -> bool {
    exists|i: int| 0 <= i < states.len() && is_close_task(task(#[trigger] states[i]), dir)
}

/// The path is below the directory by one of the entries.
spec fn leads(dir: Seq<Seq<u8>>, entries: Seq<EntryView>, path: Seq<Seq<u8>>) -> bool {
    is_below(path, dir) && exists|i: int|
        0 <= i < entries.len() && (#[trigger] entries[i]).source == path[dir.len() as int]
}

spec fn dirs_lead(dirs: Seq<DirView>, path: Seq<Seq<u8>>) -> bool {
    exists|i: int|
        0 <= i < dirs.len() && leads((#[trigger] dirs[i]).dir, dirs[i].entries, path)
}

/// The build will still come to the path.
spec fn ahead(s: BuildView, path: Seq<Seq<u8>>) -> bool {
    ||| !s.started
    ||| s.opening matches Some(o) && leads(o.dir, o.entries, path)
    ||| dirs_lead(s.dirs, path)
}

/// The directory is there and not left out, and the entries are some of those in it.
spec fn dir_true(w: World, features: Features, dir: Seq<Seq<u8>>, entries: Seq<EntryView>) -> bool {
    &&& w.is_dir(dir)
    &&& w.is_kept(features, dir)
    &&& !w.is_skipped(features, dir)
    &&& forall|i: int|
        0 <= i < entries.len() ==> listed(features, w.entries(dir)).contains(#[trigger] entries[i])
}

/// All that a state says is so.
spec fn is_true(w: World, features: Features, s: BuildView) -> bool {
    &&& s.features == features
    &&& !s.started ==> s.dirs.len() == 0 && s.opening is None
    &&& forall|i: int|
        0 <= i < s.dirs.len() ==> dir_true(
            w,
            features,
            (#[trigger] s.dirs[i]).dir,
            s.dirs[i].entries,
        ) && s.dirs[i].id == (w.id)(s.dirs[i].dir)
    &&& forall|i: int, j: int|
        0 <= i < j < s.dirs.len() ==> is_below((#[trigger] s.dirs[j]).dir, (#[trigger] s.dirs[i]).dir)
    &&& s.opening matches Some(o) ==> {
        &&& dir_true(w, features, o.dir, o.entries)
        &&& forall|i: int| 0 <= i < s.dirs.len() ==> is_below(o.dir, (#[trigger] s.dirs[i]).dir)
    }
}

/// An entry says of itself what the file system does.
proof fn lemma_entry(w: World, features: Features, dir: Seq<Seq<u8>>, e: EntryView)
    requires
        listed(features, w.entries(dir)).contains(e),
    ensures
        (w.names)(dir).contains(e.source),
        e.ty == (w.kind)(dir.push(e.source)),
        e == entry_of(features, e.source, e.ty),
{
    let all = listed(features, w.entries(dir));
    let i = choose|i: int| 0 <= i < all.len() && all[i] == e;
    assert(w.entries(dir)[i].0 == (w.names)(dir)[i]);
}

/// A name in a directory is among its entries.
proof fn lemma_listed(w: World, features: Features, dir: Seq<Seq<u8>>, name: Seq<u8>)
    requires
        (w.names)(dir).contains(name),
    ensures
        exists|i: int|
            0 <= i < listed(features, w.entries(dir)).len() && (#[trigger] listed(
                features,
                w.entries(dir),
            )[i]).source == name,
{
    let names = (w.names)(dir);
    let i = choose|i: int| 0 <= i < names.len() && names[i] == name;
    assert(listed(features, w.entries(dir))[i].source == name);
}

/// Without the entry that comes next, a directory leads to what it led to, but for what is below that
/// entry.
proof fn lemma_without_next(s: BuildView, p: Seq<Seq<u8>>)
    requires
        dirs_lead(s.dirs, p),
        s.dirs.last().entries.len() > 0,
    ensures
        dirs_lead(s.without_next().dirs, p) || (is_below(p, s.dirs.last().dir)
            && s.dirs.last().entries[0].source == p[s.dirs.last().dir.len() as int]),
{
    let t = s.without_next();
    let n = s.dirs.len() - 1;
    let i = choose|i: int|
        0 <= i < s.dirs.len() && leads((#[trigger] s.dirs[i]).dir, s.dirs[i].entries, p);
    if i < n {
        assert(t.dirs[i] == s.dirs[i]);
    } else {
        let top = s.dirs[n];
        let k = choose|k: int|
            0 <= k < top.entries.len() && (#[trigger] top.entries[k]).source
                == p[top.dir.len() as int];
        if k > 0 {
            assert(t.dirs[n].entries[k - 1] == top.entries[k]);
            assert(leads(t.dirs[n].dir, t.dirs[n].entries, p));
        }
    }
}

/// A state without the entry that comes next says what is so, if the state does.
proof fn lemma_without_next_true(w: World, features: Features, s: BuildView)
    requires
        is_true(w, features, s),
        s.opening is None,
        s.dirs.len() > 0,
        s.dirs.last().entries.len() > 0,
    ensures
        is_true(w, features, s.without_next()),
{
    let t = s.without_next();
    let n = s.dirs.len() - 1;
    assert forall|i: int| 0 <= i < t.dirs.len() implies dir_true(
        w,
        features,
        (#[trigger] t.dirs[i]).dir,
        t.dirs[i].entries,
    ) && t.dirs[i].id == (w.id)(t.dirs[i].dir) by {
        assert(s.dirs[i].dir == t.dirs[i].dir);
        if i == n {
            assert forall|k: int| 0 <= k < t.dirs[n].entries.len() implies listed(
                features,
                w.entries(t.dirs[n].dir),
            ).contains(#[trigger] t.dirs[n].entries[k]) by {
                assert(t.dirs[n].entries[k] == s.dirs[n].entries[k + 1]);
            }
        }
    }
    assert forall|i: int, j: int| 0 <= i < j < t.dirs.len() implies is_below(
        (#[trigger] t.dirs[j]).dir,
        (#[trigger] t.dirs[i]).dir,
    ) by {
        assert(s.dirs[i].dir == t.dirs[i].dir && s.dirs[j].dir == t.dirs[j].dir);
    }
}

proof fn lemma_kept_below(w: World, features: Features, dir: Seq<Seq<u8>>, name: Seq<u8>)
    requires
        w.is_kept(features, dir),
        !w.is_skipped(features, dir),
    ensures
        w.is_kept(features, dir.push(name)),
{
    let path = dir.push(name);
    assert forall|i: int| 0 <= i < path.len() implies !w.is_skipped(
        features,
        #[trigger] path.take(i),
    ) by {
        if i < dir.len() {
            assert(path.take(i) =~= dir.take(i));
        } else {
            assert(path.take(i) =~= dir);
        }
    }
}

proof fn lemma_read_true(w: World, features: Features, s: BuildView, t: BuildView)
    requires
        is_true(w, features, s),
        task(s) is Read,
        w.builds(s, t),
    ensures
        is_true(w, features, t),
{
    let n = s.dirs.len() - 1;
    let dir = task(s)->Read_0;
    let all = listed(features, w.entries(dir));
    let rest = BuildView { started: true, ..s.without_next() };
    if s.started {
        let top = s.dirs[n];
        let e = top.entries[0];
        lemma_entry(w, features, top.dir, e);
        lemma_dir_push(w, top.dir, e.source);
        lemma_kept_below(w, features, top.dir, e.source);
        lemma_without_next_true(w, features, s);
        assert(dir.take(top.dir.len() as int) =~= top.dir);
        assert forall|i: int| 0 <= i < rest.dirs.len() implies is_below(
            dir,
            (#[trigger] rest.dirs[i]).dir,
        ) by {
            assert(rest.dirs[i].dir == s.dirs[i].dir);
            if i < n {
                assert(is_below(s.dirs[n].dir, s.dirs[i].dir));
                lemma_below_further(dir, top.dir, s.dirs[i].dir);
            }
        }
    }
    assert(is_true(w, features, rest));
    if !has_skip(all) {
        let o = t.opening->0;
        assert(o.dir == dir);
        lemma_skip_same(o.entries, all);
        assert forall|i: int| 0 <= i < o.entries.len() implies all.contains(
            #[trigger] o.entries[i],
        ) by {
            assert(o.entries.contains(o.entries[i]));
        }
        assert(dir_true(w, features, o.dir, o.entries));
        assert(t.dirs == rest.dirs);
    }
}

proof fn lemma_read_ahead(w: World, features: Features, s: BuildView, t: BuildView, p: Seq<Seq<u8>>)
    requires
        is_true(w, features, s),
        task(s) is Read,
        w.builds(s, t),
        w.is_file(p),
        w.is_kept(features, p),
        ahead(s, p),
    ensures
        ahead(t, p),
{
    let dir = task(s)->Read_0;
    let all = listed(features, w.entries(dir));
    if s.started {
        lemma_without_next(s, p);
        if !dirs_lead(s.without_next().dirs, p) {
            let top = s.dirs.last();
            let e = top.entries[0];
            assert(s.dirs[s.dirs.len() - 1] == top);
            lemma_entry(w, features, top.dir, e);
            lemma_file_below(w, p, top.dir);
            assert(is_below(p, dir));
        }
    } else {
        assert(p.take(0) =~= dir);
    }
    if !dirs_lead(t.dirs, p) {
        assert(is_below(p, dir));
        assert(p.take(dir.len() as int) == dir);
        assert(!has_skip(all));
        lemma_file_below(w, p, dir);
        lemma_listed(w, features, dir, p[dir.len() as int]);
        let o = t.opening->0;
        lemma_skip_same(o.entries, all);
        let i = choose|i: int|
            0 <= i < all.len() && (#[trigger] all[i]).source == p[dir.len() as int];
        assert(all.contains(all[i]));
        assert(o.entries.contains(all[i]));
        let k = choose|k: int| 0 <= k < o.entries.len() && o.entries[k] == all[i];
        assert(o.entries[k].source == p[dir.len() as int]);
        assert(leads(o.dir, o.entries, p));
    }
}

proof fn lemma_open_step(w: World, features: Features, s: BuildView)
    requires
        is_true(w, features, s),
        task(s) is Open,
    ensures
        match after_open(s, (w.id)(s.opening->0.dir)) {
            Ok(t) => is_true(w, features, t) && forall|p: Seq<Seq<u8>>|
                ahead(s, p) ==> #[trigger] ahead(t, p),
            Err(dir) => w.is_loop(dir),
        },
{
    let o = s.opening->0;
    let id = (w.id)(o.dir);
    if has_id(s.dirs, id) {
        let i = choose|i: int| 0 <= i < s.dirs.len() && (#[trigger] s.dirs[i]).id == id;
        assert(is_below(o.dir, s.dirs[i].dir));
        assert((w.id)(s.dirs[i].dir) == (w.id)(o.dir));
        assert(w.is_loop(o.dir));
    } else {
        let d = DirView { dir: o.dir, id, entries: o.entries };
        let t = BuildView { opening: None, dirs: s.dirs.push(d), ..s };
        assert(after_open(s, id) == Ok::<BuildView, Seq<Seq<u8>>>(t));
        assert forall|i: int| 0 <= i < t.dirs.len() implies dir_true(
            w,
            features,
            (#[trigger] t.dirs[i]).dir,
            t.dirs[i].entries,
        ) && t.dirs[i].id == (w.id)(t.dirs[i].dir) by {
            if i < s.dirs.len() {
                assert(t.dirs[i] == s.dirs[i]);
            }
        }
        assert forall|i: int, j: int| 0 <= i < j < t.dirs.len() implies is_below(
            (#[trigger] t.dirs[j]).dir,
            (#[trigger] t.dirs[i]).dir,
        ) by {
            assert(t.dirs[i] == s.dirs[i]);
            if j < s.dirs.len() {
                assert(t.dirs[j] == s.dirs[j]);
            }
        }
        assert(s.started);
        assert forall|p: Seq<Seq<u8>>| ahead(s, p) implies #[trigger] ahead(t, p) by {
            if leads(o.dir, o.entries, p) {
                assert(t.dirs[s.dirs.len() as int] == d);
            } else {
                let i = choose|i: int|
                    0 <= i < s.dirs.len() && leads(
                        (#[trigger] s.dirs[i]).dir,
                        s.dirs[i].entries,
                        p,
                    );
                assert(t.dirs[i] == s.dirs[i]);
            }
        }
    }
}

proof fn lemma_close_step(w: World, features: Features, s: BuildView)
    requires
        is_true(w, features, s),
        task(s) is Close,
    ensures
        is_true(w, features, after_close(s)),
        forall|p: Seq<Seq<u8>>| ahead(s, p) ==> #[trigger] ahead(after_close(s), p),
{
    let t = after_close(s);
    assert(forall|i: int| 0 <= i < t.dirs.len() ==> #[trigger] t.dirs[i] == s.dirs[i]);
    assert forall|p: Seq<Seq<u8>>| ahead(s, p) implies #[trigger] ahead(t, p) by {
        let i = choose|i: int|
            0 <= i < s.dirs.len() && leads((#[trigger] s.dirs[i]).dir, s.dirs[i].entries, p);
        assert(t.dirs[i] == s.dirs[i]);
    }
}

/// What is true of a build and what is ahead of it, after some steps.
proof fn lemma_build(w: World, features: Features, states: Seq<BuildView>, n: int)
    requires
        w.is_build(features, states),
        0 <= n < states.len(),
    ensures
        is_true(w, features, states[n]),
        forall|p: Seq<Seq<u8>>|
            w.is_file(p) && #[trigger] w.is_kept(features, p) ==> is_built(states.take(n), p)
                || ahead(states[n], p),
    decreases n,
{
    if n > 0 {
        lemma_build(w, features, states, n - 1);
        let s = states[n - 1];
        let t = states[n - 1 + 1];
        assert(w.builds(s, t));
        match task(s) {
            TaskView::Read(_) => {
                lemma_read_true(w, features, s, t);
            },
            TaskView::Open(_, _) => {
                lemma_open_step(w, features, s);
            },
            TaskView::File(_, _, _) => {
                lemma_without_next_true(w, features, s);
            },
            TaskView::Close(_) => {
                lemma_close_step(w, features, s);
            },
            TaskView::Done => {},
        }
        assert forall|p: Seq<Seq<u8>>|
            w.is_file(p) && #[trigger] w.is_kept(features, p) implies is_built(states.take(n), p)
            || ahead(t, p) by {
            let before = states.take(n - 1);
            if is_built(before, p) {
                let i = choose|i: int|
                    0 <= i < before.len() && is_file_task(task(#[trigger] before[i]), p);
                assert(states.take(n)[i] == before[i]);
            } else {
                match task(s) {
                    TaskView::Read(_) => {
                        lemma_read_ahead(w, features, s, t, p);
                    },
                    TaskView::File(_, _, _) => {
                        lemma_without_next(s, p);
                        if !dirs_lead(t.dirs, p) {
                            let top = s.dirs[s.dirs.len() - 1];
                            lemma_entry(w, features, top.dir, top.entries[0]);
                            lemma_file_below(w, p, top.dir);
                            assert(states.take(n)[n - 1] == s);
                            assert(is_file_task(task(s), p));
                        }
                    },
                    _ => {},
                }
            }
        }
    }
}

/// A build that has come to its end has built every file of the pack that is in no directory marked to
/// be left out, and no others.
pub proof fn law_build_covers(
    w: World,
    features: Features,
    states: Seq<BuildView>,
    path: Seq<Seq<u8>>,
)
    requires
        w.is_build(features, states),
        task(states.last()) is Done,
    ensures
        is_built(states, path) <==> w.is_file(path) && w.is_kept(features, path),
{
    let n = states.len() - 1;
    lemma_build(w, features, states, n);
    if w.is_file(path) && w.is_kept(features, path) {
        assert(!ahead(states[n], path));
        let i = choose|i: int|
            0 <= i < n && is_file_task(task(#[trigger] states.take(n)[i]), path);
        assert(states[i] == states.take(n)[i]);
    }
    if is_built(states, path) {
        let i = choose|i: int| 0 <= i < states.len() && is_file_task(task(#[trigger] states[i]), path);
        lemma_build(w, features, states, i);
        let top = states[i].dirs[states[i].dirs.len() - 1];
        lemma_entry(w, features, top.dir, top.entries[0]);
        lemma_file_push(w, top.dir, top.entries[0].source);
        lemma_kept_below(w, features, top.dir, top.entries[0].source);
    }
}

/// A file is built as what its name says it is, under the name that this maps it to.
pub proof fn law_build_names(w: World, features: Features, states: Seq<BuildView>, i: int)
    requires
        w.is_build(features, states),
        0 <= i < states.len(),
    ensures
        task(states[i]) matches TaskView::File(path, name, kind) ==> path.len() > 0 && name
            == mapped_name(features, path.last()) && kind == kind_of(features, path.last()),
{
    lemma_build(w, features, states, i);
    if task(states[i]) is File {
        let top = states[i].dirs[states[i].dirs.len() - 1];
        lemma_entry(w, features, top.dir, top.entries[0]);
    }
}

/// A build is only ever refused a directory because it is also one of those that it is in.
pub proof fn law_build_refused(w: World, features: Features, states: Seq<BuildView>)
    requires
        w.is_build(features, states),
        task(states.last()) is Open,
    ensures
        after_open(states.last(), (w.id)(states.last().opening->0.dir)) matches Err(dir)
            ==> w.is_loop(dir),
{
    lemma_build(w, features, states, states.len() - 1);
    lemma_open_step(w, features, states.last());
}

/// The directory is there, and neither it nor any that it is in is marked to be left out.
pub open spec fn is_kept_dir(w: World, features: Features, dir: Seq<Seq<u8>>) -> bool {
    w.is_dir(dir) && w.is_kept(features, dir) && !w.is_skipped(features, dir)
}

/// The build will still open the directory.
spec fn opens(s: BuildView, dir: Seq<Seq<u8>>) -> bool {
    ahead(s, dir) || (s.opening matches Some(o) && o.dir == dir)
}

/// The directory is open.
spec fn holds(s: BuildView, dir: Seq<Seq<u8>>) -> bool {
    exists|i: int| 0 <= i < s.dirs.len() && (#[trigger] s.dirs[i]).dir == dir
}

proof fn lemma_read_opens(w: World, features: Features, s: BuildView, t: BuildView, p: Seq<Seq<u8>>)
    requires
        is_true(w, features, s),
        task(s) is Read,
        w.builds(s, t),
        is_kept_dir(w, features, p),
        ahead(s, p),
    ensures
        opens(t, p),
{
    let dir = task(s)->Read_0;
    let all = listed(features, w.entries(dir));
    if s.started {
        lemma_without_next(s, p);
        if !dirs_lead(s.without_next().dirs, p) {
            let top = s.dirs.last();
            let e = top.entries[0];
            assert(s.dirs[s.dirs.len() - 1] == top);
            lemma_entry(w, features, top.dir, e);
            lemma_dir_below(w, p, top.dir);
            assert(p == dir || is_below(p, dir));
        }
    } else {
        assert(p.take(0) =~= dir);
        if p.len() == 0 {
            assert(p =~= dir);
        }
    }
    if !dirs_lead(t.dirs, p) {
        if p == dir {
            assert(!has_skip(all));
        } else {
            assert(is_below(p, dir));
            assert(p.take(dir.len() as int) == dir);
            assert(!has_skip(all));
            lemma_dir_below(w, p, dir);
            lemma_listed(w, features, dir, p[dir.len() as int]);
            let o = t.opening->0;
            lemma_skip_same(o.entries, all);
            let i = choose|i: int|
                0 <= i < all.len() && (#[trigger] all[i]).source == p[dir.len() as int];
            assert(all.contains(all[i]));
            assert(o.entries.contains(all[i]));
            let k = choose|k: int| 0 <= k < o.entries.len() && o.entries[k] == all[i];
            assert(o.entries[k].source == p[dir.len() as int]);
            assert(leads(o.dir, o.entries, p));
        }
    }
}

/// A directory that is open stays so, until it is closed.
proof fn lemma_holds(w: World, s: BuildView, t: BuildView, p: Seq<Seq<u8>>)
    requires
        w.builds(s, t),
        holds(s, p) || is_open_task(task(s), p),
    ensures
        holds(t, p) || is_close_task(task(s), p),
{
    let n = s.dirs.len() - 1;
    if let TaskView::Open(dir, _) = task(s) {
        let o = s.opening->0;
        assert(t.dirs[n + 1].dir == o.dir);
    }
    if holds(s, p) {
        let i = choose|i: int| 0 <= i < s.dirs.len() && (#[trigger] s.dirs[i]).dir == p;
        if i < n || !(task(s) is Close) {
            assert(t.dirs[i].dir == s.dirs[i].dir);
        }
    }
}

/// A directory that is kept is opened and closed sooner or later.
proof fn lemma_dirs(w: World, features: Features, states: Seq<BuildView>, n: int, p: Seq<Seq<u8>>)
    requires
        w.is_build(features, states),
        0 <= n < states.len(),
        is_kept_dir(w, features, p),
    ensures
        is_opened(states.take(n), p) || opens(states[n], p),
        is_closed(states.take(n), p) || opens(states[n], p) || holds(states[n], p),
    decreases n,
{
    if n > 0 {
        lemma_dirs(w, features, states, n - 1, p);
        lemma_build(w, features, states, n - 1);
        let s = states[n - 1];
        let t = states[n - 1 + 1];
        let before = states.take(n - 1);
        let after = states.take(n);
        assert(w.builds(s, t));
        assert(after[n - 1] == s);
        if is_opened(before, p) {
            let i = choose|i: int|
                0 <= i < before.len() && is_open_task(task(#[trigger] before[i]), p);
            assert(after[i] == before[i]);
        }
        if is_closed(before, p) {
            let i = choose|i: int|
                0 <= i < before.len() && is_close_task(task(#[trigger] before[i]), p);
            assert(after[i] == before[i]);
        }
        if holds(s, p) || is_open_task(task(s), p) {
            lemma_holds(w, s, t, p);
        }
        if ahead(s, p) {
            match task(s) {
                TaskView::Read(_) => {
                    lemma_read_opens(w, features, s, t, p);
                },
                TaskView::Open(_, _) => {
                    lemma_open_step(w, features, s);
                },
                TaskView::File(_, _, _) => {
                    lemma_without_next(s, p);
                    if !dirs_lead(t.dirs, p) {
                        let top = s.dirs[s.dirs.len() - 1];
                        lemma_entry(w, features, top.dir, top.entries[0]);
                        lemma_dir_below(w, p, top.dir);
                    }
                },
                TaskView::Close(_) => {
                    lemma_close_step(w, features, s);
                },
                TaskView::Done => {},
            }
        }
    }
}

/// A build that has come to its end has opened and closed every directory of the pack that is not left
/// out, and no others.
pub proof fn law_build_dirs(
    w: World,
    features: Features,
    states: Seq<BuildView>,
    dir: Seq<Seq<u8>>,
)
    requires
        w.is_build(features, states),
        task(states.last()) is Done,
    ensures
        is_opened(states, dir) <==> is_kept_dir(w, features, dir),
        is_closed(states, dir) <==> is_kept_dir(w, features, dir),
{
    let n = states.len() - 1;
    if is_kept_dir(w, features, dir) {
        lemma_dirs(w, features, states, n, dir);
        assert(!opens(states[n], dir) && !holds(states[n], dir));
        let i = choose|i: int|
            0 <= i < n && is_open_task(task(#[trigger] states.take(n)[i]), dir);
        assert(states[i] == states.take(n)[i]);
        let j = choose|j: int|
            0 <= j < n && is_close_task(task(#[trigger] states.take(n)[j]), dir);
        assert(states[j] == states.take(n)[j]);
    }
    if is_opened(states, dir) {
        let i = choose|i: int| 0 <= i < states.len() && is_open_task(task(#[trigger] states[i]), dir);
        lemma_build(w, features, states, i);
    }
    if is_closed(states, dir) {
        let i = choose|i: int|
            0 <= i < states.len() && is_close_task(task(#[trigger] states[i]), dir);
        lemma_build(w, features, states, i);
        let s = states[i];
        assert(s.dirs[s.dirs.len() - 1].dir == dir);
    }
}

/// A directory is built under its own name, and the pack under none.
pub proof fn law_open_names(w: World, features: Features, states: Seq<BuildView>, i: int)
    requires
        w.is_build(features, states),
        0 <= i < states.len(),
    ensures
        task(states[i]) matches TaskView::Open(dir, name) ==> name == (if dir.len() == 0 {
            Seq::<u8>::empty()
        } else {
            dir.last()
        }),
{
    if i > 0 && task(states[i]) is Open {
        let s = states[i - 1];
        assert(w.builds(states[i - 1], states[i - 1 + 1]));
        lemma_build(w, features, states, i - 1);
        assert(task(s) is Read);
        if s.started {
            let top = s.dirs.last();
            let e = top.entries[0];
            assert(s.dirs[s.dirs.len() - 1] == top);
            lemma_entry(w, features, top.dir, e);
            assert(top.dir.push(e.source).last() == e.source);
        }
    }
}

/// A directory is left out exactly if one of the names in it, whatever that is the name of, is the one
/// that says so.
pub proof fn law_skipped(w: World, features: Features, dir: Seq<Seq<u8>>)
    ensures
        w.is_skipped(features, dir) <==> exists|i: int|
            0 <= i < (w.names)(dir).len() && is_skip(#[trigger] (w.names)(dir)[i]),
{
    let names = (w.names)(dir);
    let all = listed(features, w.entries(dir));
    assert(all.len() == names.len());
    assert forall|i: int| 0 <= i < names.len() implies is_skip((#[trigger] all[i]).name) == is_skip(
        names[i],
    ) by {
        let name = names[i];
        assert(w.entries(dir)[i] == (name, (w.kind)(dir.push(name))));
        let mapped = mapped_name(features, name);
        law_features(features, name);
        law_skip(name);
        law_skip(mapped);
        if kind_of(features, name) == SourceKind::Svg {
            assert(mapped[mapped.len() - 1] == 103);
            assert(!is_skip(mapped));
            assert(name[name.len() - 4] == 46);
            assert(!is_skip(name));
        } else if kind_of(features, name) == SourceKind::Toml {
            assert(mapped[mapped.len() - 1] == 110);
            assert(!is_skip(mapped));
            assert(name[name.len() - 5] == 46);
            assert(!is_skip(name));
        }
    }
    if exists|i: int| 0 <= i < names.len() && is_skip(#[trigger] names[i]) {
        let i = choose|i: int| 0 <= i < names.len() && is_skip(#[trigger] names[i]);
        assert(is_skip(all[i].name));
    }
    if w.is_skipped(features, dir) {
        let i = choose|i: int| 0 <= i < all.len() && is_skip((#[trigger] all[i]).name);
        assert(is_skip(names[i]));
    }
}

/// The entries of a directory are built in the order of the names that they are built under, all of them
/// and each as often as it is there.
pub proof fn law_entries_order(sorted: Seq<EntryView>, entries: Seq<EntryView>, i: int, j: int)
    requires
        entries_sorted(sorted, entries),
        0 <= i < j < sorted.len(),
    ensures
        name_le(sorted[i].name, sorted[j].name),
        sorted[i].name != sorted[j].name ==> !name_le(sorted[j].name, sorted[i].name),
        entries.contains(sorted[i]),
        sorted.len() == entries.len(),
{
    broadcast use vstd::seq_lib::group_to_multiset_ensures;

    lemma_name_le_total(sorted[i].name, sorted[j].name);
    assert(sorted.contains(sorted[i]));
    assert(sorted.to_multiset().count(sorted[i]) > 0);
    assert(sorted.to_multiset().len() == sorted.len());
    assert(entries.to_multiset().len() == entries.len());
}

/// Two entries of a directory may not be built under the same name, and under different names they may.
pub proof fn law_names_differ(entries: Seq<EntryView>)
    ensures
        no_twins(entry_keys(entries)) <==> forall|i: int, j: int|
            0 <= i < j < entries.len() ==> (#[trigger] entries[i]).name != (#[trigger] entries[j]).name,
{
    let keys = entry_keys(entries);
    assert forall|i: int, j: int| 0 <= i < entries.len() && 0 <= j < entries.len() implies (keys[i]
        == keys[j] <==> (#[trigger] entries[i]).name == (#[trigger] entries[j]).name) by {
        lemma_name_key(entries[i].name, entries[j].name);
    }
    if no_twins(keys) {
        assert forall|i: int, j: int| 0 <= i < j < entries.len() implies (#[trigger] entries[i]).name
            != (#[trigger] entries[j]).name by {
            assert(!has_twins(keys, keys[i]));
        }
    }
    if forall|i: int, j: int|
        0 <= i < j < entries.len() ==> (#[trigger] entries[i]).name != (#[trigger] entries[j]).name {
        assert forall|key: Seq<Seq<u8>>| !#[trigger] has_twins(keys, key) by {
            if has_twins(keys, key) {
                let (i, j) = choose|i: int, j: int|
                    0 <= i < j < keys.len() && #[trigger] keys[i] == key && #[trigger] keys[j] == key;
                assert(entries[i].name == entries[j].name);
            }
        }
    }
}

} // verus!
