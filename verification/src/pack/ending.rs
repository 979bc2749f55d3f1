//! A build comes to an end.
use crate::cli::Features;
use crate::file::{lemma_ids_few, most_ids};
use crate::order::{
    lemma_map_multiset, lemma_name_le_total, lemma_name_le_transitive, name_le, no_twins,
};
use crate::pack::building::{
    after_close, after_open, after_read, entries_sorted, entry_keys, has_id, has_skip, listed, started,
    task, BuildView, DirView, EntryView, OpeningView, TaskView,
};
use crate::tally::{
    dir_work, lemma_first_work, lemma_total_push, lemma_work_same, names_work, room, total,
};
use crate::world::World;
use vstd::prelude::*;

verus! {

impl World {
    /// The build can go on no further: two entries of a directory are built into the same name, or a
    /// directory is also one of those that it is in.
    pub open spec fn is_refused(self, s: BuildView) -> bool {
        match task(s) {
            TaskView::Read(dir) => {
                let all = listed(s.features, self.entries(dir));
                !has_skip(all) && !no_twins(entry_keys(all))
            },
            TaskView::Open(dir, _) => after_open(s, (self.id)(dir)) is Err,
            _ => false,
        }
    }
}

/// The names that entries have in the source.
spec fn sources(entries: Seq<EntryView>) -> Seq<Seq<u8>> {
    entries.map_values(|e: EntryView| e.source)
}

spec fn entries_work(w: World, depth: nat) -> spec_fn(DirView) -> nat {
    |d: DirView| 1 + names_work(w, depth, d.dir, sources(d.entries))
}

/// What a build has yet to do.
spec fn left(w: World, depth: nat, s: BuildView) -> nat {
    total(s.dirs, entries_work(w, depth)) + match s.opening {
        Some(o) => 2 + names_work(w, depth, o.dir, sources(o.entries)),
        None => 0,
    } + if s.started {
        0
    } else {
        4 + dir_work(w, depth, seq![])
    }
}

/// Putting an entry where it belongs in order.
proof fn lemma_insert(sorted: Seq<EntryView>, e: EntryView) -> (r: Seq<EntryView>)
    requires
        forall|i: int, j: int|
            0 <= i <= j < sorted.len() ==> name_le(
                (#[trigger] sorted[i]).name,
                (#[trigger] sorted[j]).name,
            ),
    ensures
        entries_sorted(r, sorted.push(e)),
    decreases sorted.len(),
{
    broadcast use vstd::seq_lib::group_to_multiset_ensures;

    lemma_name_le_total(e.name, e.name);
    if sorted.len() == 0 {
        assert(sorted.push(e) =~= seq![e]);
        seq![e]
    } else {
        let n = sorted.len() - 1;
        let last = sorted[n];
        lemma_name_le_total(last.name, e.name);
        if name_le(last.name, e.name) {
            let r = sorted.push(e);
            assert forall|i: int, j: int| 0 <= i <= j < r.len() implies name_le(
                (#[trigger] r[i]).name,
                (#[trigger] r[j]).name,
            ) by {
                if i <= n && j == n + 1 {
                    assert(name_le(sorted[i].name, sorted[n].name));
                    lemma_name_le_transitive(r[i].name, last.name, e.name);
                } else if j <= n {
                    assert(name_le(sorted[i].name, sorted[j].name));
                }
            }
            r
        } else {
            let front = sorted.drop_last();
            let inner = lemma_insert(front, e);
            let r = inner.push(last);
            assert(sorted =~= front.push(last));
            assert(r.to_multiset() =~= sorted.push(e).to_multiset()) by {
                assert(inner.to_multiset() == front.push(e).to_multiset());
                assert(r.to_multiset() =~= front.to_multiset().insert(e).insert(last));
                assert(sorted.push(e).to_multiset() =~= front.to_multiset().insert(last).insert(e));
            }
            assert forall|i: int, j: int| 0 <= i <= j < r.len() implies name_le(
                (#[trigger] r[i]).name,
                (#[trigger] r[j]).name,
            ) by {
                lemma_name_le_total(last.name, last.name);
                if j < inner.len() {
                    assert(name_le(inner[i].name, inner[j].name));
                } else if i < inner.len() {
                    assert(inner.contains(inner[i]));
                    assert(front.push(e).to_multiset().count(inner[i]) > 0);
                    assert(front.push(e).contains(inner[i]));
                    let k = choose|k: int|
                        0 <= k < front.push(e).len() && front.push(e)[k] == inner[i];
                    if k < front.len() {
                        assert(sorted[k] == inner[i]);
                        assert(name_le(sorted[k].name, sorted[n].name));
                    }
                }
            }
            r
        }
    }
}

/// Entries can be put in order.
proof fn lemma_sorted(entries: Seq<EntryView>) -> (sorted: Seq<EntryView>)
    ensures
        entries_sorted(sorted, entries),
    decreases entries.len(),
{
    broadcast use vstd::seq_lib::group_to_multiset_ensures;

    if entries.len() == 0 {
        entries
    } else {
        let front = lemma_sorted(entries.drop_last());
        let sorted = lemma_insert(front, entries.last());
        assert(entries =~= entries.drop_last().push(entries.last()));
        assert(sorted.to_multiset() =~= entries.to_multiset());
        sorted
    }
}

/// Without the entry that comes next there is less to do, by what is below that entry and more.
proof fn lemma_next_less(w: World, depth: nat, s: BuildView)
    requires
        s.dirs.len() > 0,
        s.dirs.last().entries.len() > 0,
        s.dirs.last().dir.len() < depth,
    ensures
        left(w, depth, s) == 4 + dir_work(
            w,
            depth,
            s.dirs.last().dir.push(s.dirs.last().entries[0].source),
        ) + left(w, depth, s.without_next()),
{
    let top = s.dirs.last();
    let rest = DirView { entries: top.entries.skip(1), ..top };
    assert(sources(top.entries)[0] == top.entries[0].source);
    assert(sources(top.entries).skip(1) =~= sources(rest.entries));
    lemma_first_work(w, depth, top.dir, sources(top.entries));
    lemma_total_push(s.dirs.drop_last(), rest, entries_work(w, depth));
}

/// A directory that is to be opened leaves as much to do as all that is in it.
proof fn lemma_opening_work(w: World, features: Features, depth: nat, o: OpeningView)
    requires
        entries_sorted(o.entries, listed(features, w.entries(o.dir))),
    ensures
        names_work(w, depth, o.dir, sources(o.entries)) == dir_work(w, depth, o.dir),
{
    let all = listed(features, w.entries(o.dir));
    lemma_map_multiset(o.entries, all, |e: EntryView| e.source);
    assert(sources(all) =~= (w.names)(o.dir));
    lemma_work_same(w, o.dir, sources(o.entries), (w.names)(o.dir), room(depth, o.dir));
}

/// No directory is also one of those that it is in, and each is one level below the one that it is in.
spec fn is_shaped(s: BuildView) -> bool {
    &&& !s.started ==> s.dirs.len() == 0 && s.opening is None
    &&& forall|i: int| 0 <= i < s.dirs.len() ==> (#[trigger] s.dirs[i]).dir.len() == i
    &&& forall|i: int, j: int|
        0 <= i < j < s.dirs.len() ==> (#[trigger] s.dirs[i]).id != (#[trigger] s.dirs[j]).id
    &&& s.opening matches Some(o) ==> o.dir.len() == s.dirs.len()
}

proof fn lemma_without_next_shape(s: BuildView)
    requires
        is_shaped(s),
    ensures
        is_shaped(s.without_next()),
        s.without_next().dirs.len() == s.dirs.len(),
{
    let t = s.without_next();
    assert forall|i: int| 0 <= i < t.dirs.len() implies (#[trigger] t.dirs[i]).dir.len() == i by {
        assert(t.dirs[i].dir == s.dirs[i].dir);
    }
    assert forall|i: int, j: int| 0 <= i < j < t.dirs.len() implies (#[trigger] t.dirs[i]).id != (
    #[trigger] t.dirs[j]).id by {
        assert(t.dirs[i].id == s.dirs[i].id && t.dirs[j].id == s.dirs[j].id);
    }
}

/// A step keeps the shape.
proof fn lemma_step_shape(w: World, s: BuildView, t: BuildView)
    requires
        is_shaped(s),
        w.builds(s, t),
    ensures
        is_shaped(t),
{
    lemma_without_next_shape(s);
    if let TaskView::Open(dir, _) = task(s) {
        let id = (w.id)(dir);
        assert forall|i: int, j: int| 0 <= i < j < t.dirs.len() implies (#[trigger] t.dirs[i]).id != (
        #[trigger] t.dirs[j]).id by {
            assert(t.dirs[i] == s.dirs[i]);
            if j < s.dirs.len() {
                assert(t.dirs[j] == s.dirs[j]);
            } else {
                assert(!has_id(s.dirs, id));
            }
        }
    } else if s.dirs.len() > 0 {
        assert(s.dirs[s.dirs.len() - 1] == s.dirs.last());
    }
}

proof fn lemma_shape(w: World, features: Features, states: Seq<BuildView>, n: int)
    requires
        w.is_build(features, states),
        0 <= n < states.len(),
    ensures
        is_shaped(states[n]),
        states[n].features == features,
    decreases n,
{
    if n > 0 {
        lemma_shape(w, features, states, n - 1);
        assert(w.builds(states[n - 1], states[n - 1 + 1]));
        lemma_step_shape(w, states[n - 1], states[n]);
    }
}

/// There are no more directories in one another than there are ids.
proof fn lemma_height(s: BuildView)
    requires
        is_shaped(s),
    ensures
        s.dirs.len() <= most_ids(),
{
    let open = s.dirs.map_values(|d: DirView| d.id);
    assert forall|k: int, l: int|
        0 <= k < open.len() && 0 <= l < open.len() && k != l implies open[k] != open[l] by {
        if k < l {
            assert(s.dirs[k].id != s.dirs[l].id);
        } else {
            assert(s.dirs[l].id != s.dirs[k].id);
        }
    }
    lemma_ids_few(open);
}

/// Every step of a build leaves less to do.
proof fn lemma_step_less(w: World, depth: nat, s: BuildView, t: BuildView)
    requires
        is_shaped(s),
        s.dirs.len() <= depth,
        !(task(s) is Done),
        w.builds(s, t),
    ensures
        left(w, depth, t) < left(w, depth, s),
{
    if s.dirs.len() > 0 {
        assert(s.dirs[s.dirs.len() - 1] == s.dirs.last());
    }
    match task(s) {
        TaskView::Read(dir) => {
            let all = listed(s.features, w.entries(dir));
            let rest = BuildView { started: true, ..s.without_next() };
            if s.started {
                lemma_next_less(w, depth, s);
            } else {
                assert(dir =~= seq![]);
            }
            assert(left(w, depth, s) == 4 + dir_work(w, depth, dir) + left(w, depth, rest));
            if !has_skip(all) {
                let o = t.opening->0;
                assert(o.dir == dir);
                lemma_opening_work(w, s.features, depth, o);
            }
        },
        TaskView::Open(dir, _) => {
            let o = s.opening->0;
            let d = DirView { dir: o.dir, id: (w.id)(dir), entries: o.entries };
            lemma_total_push(s.dirs, d, entries_work(w, depth));
        },
        TaskView::File(_, _, _) => {
            lemma_next_less(w, depth, s);
        },
        TaskView::Close(_) => {},
        TaskView::Done => {},
    }
}

/// A build that is not refused can go on.
proof fn lemma_goes_on(w: World, s: BuildView) -> (t: BuildView)
    requires
        !w.is_refused(s),
    ensures
        w.builds(s, t),
{
    match task(s) {
        TaskView::Read(dir) => {
            let all = listed(s.features, w.entries(dir));
            let rest = BuildView { started: true, ..s.without_next() };
            if has_skip(all) {
                rest
            } else {
                let entries = lemma_sorted(all);
                let o = OpeningView { dir, name: s.next_name(), entries };
                let t = BuildView { opening: Some(o), ..rest };
                assert(after_read(s, w.entries(dir), t));
                t
            }
        },
        TaskView::Open(dir, _) => after_open(s, (w.id)(dir))->Ok_0,
        TaskView::File(_, _, _) => s.without_next(),
        TaskView::Close(_) => after_close(s),
        TaskView::Done => s,
    }
}

/// A build that goes on from these states comes to an end.
proof fn lemma_ends(w: World, features: Features, states: Seq<BuildView>) -> (all: Seq<BuildView>)
    requires
        w.is_build(features, states),
    ensures
        w.is_build(features, all),
        task(all.last()) is Done || w.is_refused(all.last()),
    decreases left(w, most_ids(), states.last()),
{
    let s = states.last();
    if task(s) is Done || w.is_refused(s) {
        states
    } else {
        let t = lemma_goes_on(w, s);
        let more = states.push(t);
        assert forall|i: int| 0 <= i < more.len() - 1 implies w.builds(
            #[trigger] more[i],
            more[i + 1],
        ) by {
            assert(more[i] == states[i]);
            if i < states.len() - 1 {
                assert(more[i + 1] == states[i + 1]);
            }
        }
        assert(more[0] == states[0]);
        lemma_shape(w, features, states, states.len() - 1);
        lemma_height(s);
        lemma_step_less(w, most_ids(), s, t);
        lemma_ends(w, features, more)
    }
}

/// A build comes to its end, or is refused: because two entries of a directory are built into the same
/// name, or because a directory is also one of those that it is in. There may be any number of paths, but
/// there are only so many ids.
pub proof fn law_build_ends(w: World, features: Features)
    ensures
        exists|states: Seq<BuildView>| #[trigger]
            w.is_build(features, states) && (task(states.last()) is Done || w.is_refused(
                states.last(),
            )),
{
    let states = seq![started(features)];
    assert(w.is_build(features, states));
    let all = lemma_ends(w, features, states);
    assert(w.is_build(features, all));
}

} // verus!
