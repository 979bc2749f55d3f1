//! No file is built twice, and no directory opened or closed twice.
use crate::cli::Features;
use crate::order::{has_twins, lemma_map_multiset, name_key, no_twins};
use crate::pack::building::{
    entries_sorted, entry_keys, has_skip, listed, task, BuildView, DirView, EntryView, TaskView,
};
use crate::pack::coverage::{is_close_task, is_file_task, is_open_task};
use crate::tally::{
    count, lemma_count_distinct, lemma_count_multiset, lemma_total_push, lemma_ways_by_first,
    total, ways, ways_by,
};
use crate::world::{is_below, World};
use vstd::prelude::*;

verus! {

/// The names that entries have in the source.
spec fn sources(entries: Seq<EntryView>) -> Seq<Seq<u8>> {
    entries.map_values(|e: EntryView| e.source)
}

spec fn dir_ways(path: Seq<Seq<u8>>) -> spec_fn(DirView) -> nat {
    |d: DirView| ways_by(d.dir, sources(d.entries), path)
}

/// How often a path may be built yet.
spec fn chances(s: BuildView, path: Seq<Seq<u8>>) -> nat {
    if !s.started {
        1
    } else {
        total(s.dirs, dir_ways(path)) + match s.opening {
            Some(o) => ways_by(o.dir, sources(o.entries), path),
            None => 0,
        }
    }
}

/// One if the directory is the path, and nothing for others.
spec fn dir_is(path: Seq<Seq<u8>>) -> spec_fn(DirView) -> nat {
    |d: DirView|
        if d.dir == path {
            1
        } else {
            0
        }
}

/// How often a directory may be opened yet.
spec fn open_chances(s: BuildView, path: Seq<Seq<u8>>) -> nat {
    chances(s, path) + match s.opening {
        Some(o) => if o.dir == path {
            1nat
        } else {
            0
        },
        None => 0,
    }
}

/// How often a directory may be closed yet.
spec fn close_chances(s: BuildView, path: Seq<Seq<u8>>) -> nat {
    open_chances(s, path) + total(s.dirs, dir_is(path))
}

/// How often one of some tasks was to be done in the first `n` states.
spec fn times(states: Seq<BuildView>, n: int, hit: spec_fn(TaskView) -> bool) -> nat
    decreases n,
{
    if n <= 0 {
        0
    } else {
        times(states, n - 1, hit) + hits(hit, states[n - 1])
    }
}

spec fn hits(hit: spec_fn(TaskView) -> bool, s: BuildView) -> nat {
    if hit(task(s)) {
        1
    } else {
        0
    }
}

/// A directory leads to a path by its entries in no more ways than by all of its names, once.
proof fn lemma_entries_once(
    w: World,
    features: Features,
    dir: Seq<Seq<u8>>,
    sorted: Seq<EntryView>,
    path: Seq<Seq<u8>>,
)
    requires
        no_twins(entry_keys(listed(features, w.entries(dir)))),
        entries_sorted(sorted, listed(features, w.entries(dir))),
    ensures
        ways_by(dir, sources(sorted), path) <= ways(dir, path),
{
    let all = listed(features, w.entries(dir));
    let keys = entry_keys(all);
    let names = sources(all);
    assert(names.no_duplicates()) by {
        assert forall|i: int, j: int| 0 <= i < names.len() && 0 <= j < names.len() && i != j implies names[i]
            != names[j] by {
            let (low, high) = if i < j {
                (i, j)
            } else {
                (j, i)
            };
            if names[low] == names[high] {
                assert(w.entries(dir)[low].0 == names[low]);
                assert(w.entries(dir)[high].0 == names[high]);
                assert(all[low] == all[high]);
                let key = name_key(all[low].name);
                assert(keys[low] == key && keys[high] == key);
                assert(has_twins(keys, key));
            }
        }
    }
    lemma_count_distinct(names);
    lemma_map_multiset(sorted, all, |e: EntryView| e.source);
    if is_below(path, dir) {
        let x = path[dir.len() as int];
        lemma_count_multiset(sources(sorted), x);
        lemma_count_multiset(names, x);
        assert(count(names, x) <= 1);
    }
}

/// Without the entry that comes next, there are fewer ways to what is below it.
proof fn lemma_without_next_ways(s: BuildView, path: Seq<Seq<u8>>)
    requires
        s.dirs.len() > 0,
        s.dirs.last().entries.len() > 0,
    ensures
        ({
            let top = s.dirs.last();
            let next = top.dir.push(top.entries[0].source);
            total(s.dirs, dir_ways(path)) == total(s.without_next().dirs, dir_ways(path)) + if path
                == next || is_below(path, next) {
                1nat
            } else {
                0
            }
        }),
{
    let top = s.dirs.last();
    let left = DirView { entries: top.entries.skip(1), ..top };
    lemma_total_push(s.dirs.drop_last(), left, dir_ways(path));
    lemma_ways_by_first(top.dir, sources(top.entries), path);
    assert(sources(top.entries).skip(1) =~= sources(left.entries));
    assert(sources(top.entries)[0] == top.entries[0].source);
}

/// Without the entry that comes next, the directories are the same.
proof fn lemma_without_next_dirs(s: BuildView, path: Seq<Seq<u8>>)
    requires
        s.dirs.len() > 0,
    ensures
        total(s.dirs, dir_is(path)) == total(s.without_next().dirs, dir_is(path)),
{
    let top = s.dirs.last();
    let left = DirView { entries: top.entries.skip(1), ..top };
    lemma_total_push(s.dirs.drop_last(), left, dir_is(path));
}

proof fn lemma_step_once(w: World, s: BuildView, t: BuildView, path: Seq<Seq<u8>>)
    requires
        s.valid(),
        w.builds(s, t),
    ensures
        t.valid(),
        chances(t, path) + hits(|k: TaskView| is_file_task(k, path), s) <= chances(s, path),
        open_chances(t, path) + hits(|k: TaskView| is_open_task(k, path), s) <= open_chances(s, path),
        close_chances(t, path) + hits(|k: TaskView| is_close_task(k, path), s) <= close_chances(
            s,
            path,
        ),
{
    match task(s) {
        TaskView::Read(dir) => {
            let all = listed(s.features, w.entries(dir));
            if s.started {
                lemma_without_next_ways(s, path);
                lemma_without_next_dirs(s, path);
            } else {
                assert(s.dirs.len() == 0);
                assert(total(s.dirs, dir_ways(path)) == 0);
                assert(total(s.dirs, dir_is(path)) == 0);
            }
            if !has_skip(all) {
                let o = t.opening->0;
                lemma_entries_once(w, s.features, dir, o.entries, path);
                assert(o.dir == dir);
            }
        },
        TaskView::Open(dir, _) => {
            let o = s.opening->0;
            let d = DirView { dir: o.dir, id: (w.id)(dir), entries: o.entries };
            lemma_total_push(s.dirs, d, dir_ways(path));
            lemma_total_push(s.dirs, d, dir_is(path));
        },
        TaskView::File(file, _, _) => {
            lemma_without_next_ways(s, path);
            lemma_without_next_dirs(s, path);
        },
        TaskView::Close(_) => {
            let top = s.dirs.last();
            assert(sources(top.entries).len() == 0);
            assert(ways_by(top.dir, sources(top.entries), path) == 0);
        },
        TaskView::Done => {},
    }
}

proof fn lemma_build_once(
    w: World,
    features: Features,
    states: Seq<BuildView>,
    n: int,
    path: Seq<Seq<u8>>,
)
    requires
        w.is_build(features, states),
        0 <= n < states.len(),
    ensures
        states[n].valid(),
        times(states, n, |k: TaskView| is_file_task(k, path)) + chances(states[n], path) <= 1,
        times(states, n, |k: TaskView| is_open_task(k, path)) + open_chances(states[n], path) <= 1,
        times(states, n, |k: TaskView| is_close_task(k, path)) + close_chances(states[n], path) <= 1,
    decreases n,
{
    if n > 0 {
        lemma_build_once(w, features, states, n - 1, path);
        assert(w.builds(states[n - 1], states[n - 1 + 1]));
        lemma_step_once(w, states[n - 1], states[n], path);
    }
}

proof fn lemma_times(states: Seq<BuildView>, n: int, i: int, hit: spec_fn(TaskView) -> bool)
    requires
        0 <= i < n,
        hit(task(states[i])),
    ensures
        times(states, n, hit) >= times(states, i, hit) + 1,
    decreases n,
{
    if i < n - 1 {
        lemma_times(states, n - 1, i, hit);
    }
}

/// What is to be done no more than once is to be done in one state only.
proof fn lemma_once(states: Seq<BuildView>, i: int, j: int, hit: spec_fn(TaskView) -> bool)
    requires
        0 <= i < states.len() - 1,
        0 <= j < states.len() - 1,
        hit(task(states[i])),
        hit(task(states[j])),
        times(states, states.len() - 1, hit) <= 1,
    ensures
        i == j,
{
    let n = states.len() - 1;
    if i < j {
        lemma_times(states, j, i, hit);
        lemma_times(states, n, j, hit);
    } else if j < i {
        lemma_times(states, i, j, hit);
        lemma_times(states, n, i, hit);
    }
}

/// A build comes to no file twice.
pub proof fn law_build_once(
    w: World,
    features: Features,
    states: Seq<BuildView>,
    i: int,
    j: int,
    path: Seq<Seq<u8>>,
)
    requires
        w.is_build(features, states),
        0 <= i < states.len() - 1,
        0 <= j < states.len() - 1,
        is_file_task(task(states[i]), path),
        is_file_task(task(states[j]), path),
    ensures
        i == j,
{
    lemma_build_once(w, features, states, states.len() - 1, path);
    lemma_once(states, i, j, |k: TaskView| is_file_task(k, path));
}

/// A build opens no directory twice.
pub proof fn law_open_once(
    w: World,
    features: Features,
    states: Seq<BuildView>,
    i: int,
    j: int,
    dir: Seq<Seq<u8>>,
)
    requires
        w.is_build(features, states),
        0 <= i < states.len() - 1,
        0 <= j < states.len() - 1,
        is_open_task(task(states[i]), dir),
        is_open_task(task(states[j]), dir),
    ensures
        i == j,
{
    lemma_build_once(w, features, states, states.len() - 1, dir);
    lemma_once(states, i, j, |k: TaskView| is_open_task(k, dir));
}

/// A build closes no directory twice.
pub proof fn law_close_once(
    w: World,
    features: Features,
    states: Seq<BuildView>,
    i: int,
    j: int,
    dir: Seq<Seq<u8>>,
)
    requires
        w.is_build(features, states),
        0 <= i < states.len() - 1,
        0 <= j < states.len() - 1,
        is_close_task(task(states[i]), dir),
        is_close_task(task(states[j]), dir),
    ensures
        i == j,
{
    lemma_build_once(w, features, states, states.len() - 1, dir);
    lemma_once(states, i, j, |k: TaskView| is_close_task(k, dir));
}

} // verus!
