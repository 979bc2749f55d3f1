//! No file is found twice.
use crate::file::FileType;
use crate::glob::matching::text_matches;
use crate::glob::parse::GlobView;
use crate::glob::paths::{accepted, at_start};
use crate::glob::walk::{
    after_kind, after_read, has_id, if_any, lemma_after_enter_valid, lemma_after_kind_valid,
    lemma_after_read_valid, lemma_settled, lemma_started_valid, matching_names, requested,
    searchable, settle, settled, started, BaseView, FrameView, RequestView, WalkView,
};
use crate::tally::{
    count, is, lemma_count_distinct, lemma_count_filter, lemma_total_first, lemma_total_push,
    lemma_ways_by, lemma_ways_by_first, total, ways, ways_by,
};
use crate::world::{is_below, World};
use vstd::prelude::*;

verus! {

spec fn todo_ways(path: Seq<Seq<u8>>) -> spec_fn(BaseView) -> nat {
    |b: BaseView| ways(b.dir, path)
}

spec fn found_ways(path: Seq<Seq<u8>>) -> spec_fn(Seq<Seq<u8>>) -> nat {
    |dir: Seq<Seq<u8>>| ways(dir, path)
}

spec fn frame_ways(path: Seq<Seq<u8>>) -> spec_fn(FrameView) -> nat {
    |f: FrameView| ways_by(f.dir, f.names, path)
}

spec fn base_ways(base: Option<BaseView>, path: Seq<Seq<u8>>) -> nat {
    match base {
        Some(b) => ways_by(b.dir, b.names, path),
        None => 0,
    }
}

/// How often a path has been found, and may be yet.
spec fn chances(s: WalkView, path: Seq<Seq<u8>>) -> nat {
    count(s.matches, path) + total(s.todo, todo_ways(path)) + base_ways(s.base, path) + total(
        s.found,
        found_ways(path),
    ) + total(s.stack, frame_ways(path)) + total(s.roots, frame_ways(path)) + match s.child {
        Some((dir, _)) => ways(dir, path),
        None => 0,
    }
}

proof fn lemma_settled_ways(stack: Seq<FrameView>, roots: Seq<FrameView>, path: Seq<Seq<u8>>)
    ensures
        total(settled(stack, roots).0, frame_ways(path)) + total(
            settled(stack, roots).1,
            frame_ways(path),
        ) == total(stack, frame_ways(path)) + total(roots, frame_ways(path)),
    decreases roots.len(), stack.len(),
{
    if stack.len() > 0 {
        if stack.last().names.len() == 0 {
            lemma_settled_ways(stack.drop_last(), roots, path);
            let f = stack.last();
            assert(ways_by(f.dir, f.names, path) == 0);
        }
    } else if roots.len() > 0 {
        let next = seq![roots.last()];
        lemma_settled_ways(next, roots.drop_last(), path);
        assert(next.drop_last() =~= seq![]);
        assert(total(next.drop_last(), frame_ways(path)) == 0);
        assert(total(next, frame_ways(path)) == frame_ways(path)(roots.last()));
        assert(total(stack, frame_ways(path)) == 0);
    }
}

proof fn lemma_settle_chances(s: WalkView, path: Seq<Seq<u8>>)
    ensures
        chances(settle(s), path) == chances(s, path),
{
    lemma_settled_ways(s.stack, s.roots, path);
}

proof fn lemma_read_chances(s: WalkView, names: Seq<Seq<u8>>, path: Seq<Seq<u8>>)
    requires
        requested(s) is Read,
        names.no_duplicates(),
    ensures
        chances(after_read(s, names), path) <= chances(s, path),
{
    let next = s.todo.last();
    let segment = s.glob.base[next.seg as int];
    let kept = matching_names(s.glob, next.seg, names);
    assert(s.todo.len() > 0);
    assert(s.base is None);
    lemma_ways_by(next.dir, names, path);
    lemma_count_filter(
        names,
        |name: Seq<u8>| text_matches(segment, name),
        path[next.dir.len() as int],
    );
    assert(ways_by(next.dir, kept, path) <= ways(next.dir, path));
    assert(total(s.todo, todo_ways(path)) == total(s.todo.drop_last(), todo_ways(path)) + ways(
        next.dir,
        path,
    ));
}

proof fn lemma_base_kind_chances(s: WalkView, ty: FileType, path: Seq<Seq<u8>>)
    requires
        s.base matches Some(b) && b.names.len() > 0,
    ensures
        chances(after_kind(s, ty), path) <= chances(s, path),
{
    let b = s.base->0;
    let file = b.dir.push(b.names[0]);
    let rest = BaseView { names: b.names.skip(1), ..b };
    lemma_ways_by_first(b.dir, b.names, path);
    assert(rest.names.len() == 0 ==> ways_by(rest.dir, rest.names, path) == 0);
    assert(base_ways(if_any(rest), path) == ways_by(b.dir, b.names.skip(1), path));
    lemma_total_push(s.matches, file, is(path));
    lemma_total_push(
        s.todo,
        BaseView { dir: file, seg: b.seg + 1, names: seq![] },
        todo_ways(path),
    );
    lemma_total_push(s.found, file, found_ways(path));
    if path == file {
        assert(!is_below(path, file));
    }
}

proof fn lemma_floating_kind_chances(s: WalkView, ty: FileType, path: Seq<Seq<u8>>)
    requires
        s.base is None,
        s.child is None,
        s.stack.len() > 0,
        s.stack.last().names.len() > 0,
    ensures
        chances(after_kind(s, ty), path) <= chances(s, path),
{
    let f = s.stack.last();
    let file = f.dir.push(f.names[0]);
    let left = FrameView { names: f.names.skip(1), ..f };
    let stack = s.stack.drop_last().push(left);
    lemma_ways_by_first(f.dir, f.names, path);
    lemma_total_push(s.stack.drop_last(), left, frame_ways(path));
    lemma_total_push(s.matches, file, is(path));
    assert(total(s.stack, frame_ways(path)) == total(s.stack.drop_last(), frame_ways(path))
        + ways_by(f.dir, f.names, path));
    if ty is File {
        let t = if accepted(s.glob.floating, f.progress, f.names[0]) {
            WalkView { stack, matches: s.matches.push(file), ..s }
        } else {
            WalkView { stack, ..s }
        };
        assert(chances(t, path) <= chances(s, path));
        lemma_settle_chances(t, path);
    } else {
        if path == file {
            assert(!is_below(path, file));
        }
    }
}

proof fn lemma_enter_chances(w: World, s: WalkView, path: Seq<Seq<u8>>)
    requires
        requested(s) is Enter,
        forall|dir: Seq<Seq<u8>>| (#[trigger] (w.names)(dir)).no_duplicates(),
    ensures
        w.step(s) matches Ok(t) ==> chances(t, path) <= chances(s, path),
{
    match s.child {
        Some((dir, progress)) => {
            let id = (w.id)(dir);
            let names = (w.names)(dir);
            if !has_id(s.stack, id) {
                let f = FrameView { dir, id, progress, names };
                let t = WalkView { stack: s.stack.push(f), child: None, ..s };
                lemma_ways_by(dir, names, path);
                lemma_total_push(s.stack, f, frame_ways(path));
                lemma_settle_chances(t, path);
            }
        },
        None => {
            let dir = s.found[0];
            let id = (w.id)(dir);
            let names = (w.names)(dir);
            let f = FrameView { dir, id, progress: at_start(s.glob.floating), names };
            let t = WalkView { found: s.found.skip(1), roots: s.roots.push(f), ..s };
            lemma_ways_by(dir, names, path);
            lemma_total_first(s.found, found_ways(path));
            lemma_total_push(s.roots, f, frame_ways(path));
            lemma_settle_chances(t, path);
        },
    }
}

proof fn lemma_walk_chances(
    w: World,
    glob: GlobView,
    states: Seq<WalkView>,
    i: int,
    path: Seq<Seq<u8>>,
)
    requires
        searchable(glob),
        w.is_walk(glob, states),
        forall|dir: Seq<Seq<u8>>| (#[trigger] (w.names)(dir)).no_duplicates(),
        0 <= i < states.len(),
    ensures
        states[i].valid(),
        chances(states[i], path) <= 1,
    decreases i,
{
    if i == 0 {
        lemma_started_valid(glob);
        let s = started(glob);
        assert(total(s.todo, todo_ways(path)) + total(s.found, found_ways(path)) <= 1) by {
            if glob.base.len() > 0 {
                assert(s.todo.drop_last() =~= seq![]);
                assert(total(s.todo.drop_last(), todo_ways(path)) == 0);
            } else {
                assert(s.found.drop_last() =~= seq![]);
                assert(total(s.found.drop_last(), found_ways(path)) == 0);
            }
        }
    } else {
        lemma_walk_chances(w, glob, states, i - 1, path);
        let s = states[i - 1];
        assert(w.step(s) == Ok::<WalkView, Seq<Seq<u8>>>(states[i - 1 + 1]));
        match requested(s) {
            RequestView::Read(dir) => {
                lemma_after_read_valid(s, (w.names)(dir));
                lemma_read_chances(s, (w.names)(dir), path);
            },
            RequestView::Kind(file) => {
                let ty = (w.kind)(file);
                lemma_after_kind_valid(s, ty);
                if s.base is Some {
                    lemma_base_kind_chances(s, ty, path);
                } else {
                    lemma_settled(s.stack, s.roots);
                    lemma_floating_kind_chances(s, ty, path);
                }
            },
            RequestView::Enter(dir) => {
                lemma_after_enter_valid(s, (w.id)(dir), (w.names)(dir));
                lemma_enter_chances(w, s, path);
            },
            RequestView::Done => {},
        }
    }
}

/// A walk finds no file twice, if no directory lists a name twice.
pub proof fn law_walk_distinct(w: World, glob: GlobView, states: Seq<WalkView>)
    requires
        searchable(glob),
        w.is_walk(glob, states),
        forall|dir: Seq<Seq<u8>>| (#[trigger] (w.names)(dir)).no_duplicates(),
    ensures
        states.last().matches.no_duplicates(),
{
    let matches = states.last().matches;
    assert forall|path: Seq<Seq<u8>>| #[trigger] count(matches, path) <= 1 by {
        lemma_walk_chances(w, glob, states, states.len() - 1, path);
    }
    lemma_count_distinct(matches);
}

} // verus!
