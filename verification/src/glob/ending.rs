//! A walk comes to an end.
use crate::file::{lemma_ids_few, most_ids};
use crate::glob::matching::text_matches;
use crate::glob::parse::GlobView;
use crate::glob::paths::at_start;
use crate::glob::search::lemma_walk_base;
use crate::glob::walk::{
    after_kind, after_read, has_id, if_any, lemma_settled, matching_names, requested, searchable,
    settle, settled, started, BaseView, FrameView, RequestView, WalkView,
};
use crate::tally::{
    dir_work, lemma_first_work, lemma_total_first, lemma_total_push, lemma_work_filter, names_work,
    room, total,
};
use crate::world::World;
use vstd::prelude::*;

verus! {

spec fn todo_work(w: World, depth: nat) -> spec_fn(BaseView) -> nat {
    |b: BaseView| 2 + dir_work(w, depth, b.dir)
}

spec fn found_work(w: World, depth: nat) -> spec_fn(Seq<Seq<u8>>) -> nat {
    |dir: Seq<Seq<u8>>| 2 + dir_work(w, depth, dir)
}

spec fn frame_work(w: World, depth: nat) -> spec_fn(FrameView) -> nat {
    |f: FrameView| names_work(w, depth, f.dir, f.names)
}

/// What a walk has yet to do.
spec fn left(w: World, depth: nat, s: WalkView) -> nat {
    total(s.todo, todo_work(w, depth)) + total(s.found, found_work(w, depth)) + total(
        s.roots,
        frame_work(w, depth),
    ) + total(s.stack, frame_work(w, depth)) + match s.base {
        Some(b) => names_work(w, depth, b.dir, b.names),
        None => 0,
    } + match s.child {
        Some((dir, _)) => 1 + dir_work(w, depth, dir),
        None => 0,
    }
}

/// Leaving directories that are used up leaves as much to do.
proof fn lemma_settled_work(w: World, depth: nat, stack: Seq<FrameView>, roots: Seq<FrameView>)
    ensures
        ({
            let f = frame_work(w, depth);
            let after = settled(stack, roots);
            total(after.0, f) + total(after.1, f) == total(stack, f) + total(roots, f)
        }),
    decreases roots.len(), stack.len(),
{
    let f = frame_work(w, depth);
    if stack.len() > 0 {
        if stack.last().names.len() == 0 {
            lemma_settled_work(w, depth, stack.drop_last(), roots);
        }
    } else if roots.len() > 0 {
        let next = seq![roots.last()];
        lemma_settled_work(w, depth, next, roots.drop_last());
        let none = Seq::<FrameView>::empty();
        lemma_total_push(none, roots.last(), f);
        assert(next =~= none.push(roots.last()));
        assert(stack =~= none);
    }
}

proof fn lemma_settle_work(w: World, depth: nat, s: WalkView)
    ensures
        left(w, depth, settle(s)) == left(w, depth, s),
{
    lemma_settled_work(w, depth, s.stack, s.roots);
}

proof fn lemma_read_less(w: World, depth: nat, s: WalkView)
    requires
        s.todo.len() > 0,
        s.base is None,
    ensures
        left(w, depth, after_read(s, (w.names)(s.todo.last().dir))) < left(w, depth, s),
{
    let next = s.todo.last();
    let names = (w.names)(next.dir);
    let p = |name: Seq<u8>| text_matches(s.glob.base[next.seg as int], name);
    lemma_work_filter(w, next.dir, names, p, room(depth, next.dir));
    assert(names.filter(p) == matching_names(s.glob, next.seg, names));
}

proof fn lemma_base_less(w: World, depth: nat, s: WalkView)
    requires
        s.base matches Some(b) && b.names.len() > 0 && b.dir.len() < depth,
    ensures
        left(w, depth, after_kind(s, (w.kind)(s.base->0.dir.push(s.base->0.names[0])))) < left(
            w,
            depth,
            s,
        ),
{
    let b = s.base->0;
    let path = b.dir.push(b.names[0]);
    let next = BaseView { dir: path, seg: b.seg + 1, names: seq![] };
    let rest = BaseView { names: b.names.skip(1), ..b };
    lemma_first_work(w, depth, b.dir, b.names);
    lemma_total_push(s.todo, next, todo_work(w, depth));
    lemma_total_push(s.found, path, found_work(w, depth));
    assert(names_work(w, depth, rest.dir, rest.names) == match if_any(rest) {
        Some(b) => names_work(w, depth, b.dir, b.names),
        None => 0,
    });
}

proof fn lemma_frame_less(w: World, depth: nat, s: WalkView)
    requires
        s.base is None,
        s.child is None,
        s.stack.len() > 0,
        s.stack.last().names.len() > 0,
        s.stack.last().dir.len() < depth,
    ensures
        left(
            w,
            depth,
            after_kind(s, (w.kind)(s.stack.last().dir.push(s.stack.last().names[0]))),
        ) < left(w, depth, s),
{
    let f = s.stack.last();
    let path = f.dir.push(f.names[0]);
    let rest = FrameView { names: f.names.skip(1), ..f };
    let stack = s.stack.drop_last().push(rest);
    let t = WalkView { stack, ..s };
    lemma_first_work(w, depth, f.dir, f.names);
    lemma_total_push(s.stack.drop_last(), rest, frame_work(w, depth));
    assert(total(s.stack, frame_work(w, depth)) == total(s.stack.drop_last(), frame_work(w, depth))
        + names_work(w, depth, f.dir, f.names));
    assert(left(w, depth, t) < left(w, depth, s));
    let u = WalkView { matches: s.matches.push(path), ..t };
    assert(left(w, depth, u) == left(w, depth, t));
    lemma_settle_work(w, depth, t);
    lemma_settle_work(w, depth, u);
}

proof fn lemma_enter_less(w: World, depth: nat, s: WalkView)
    requires
        s.base is None,
        requested(s) is Enter,
    ensures
        w.step(s) matches Ok(t) ==> left(w, depth, t) < left(w, depth, s),
{
    let frames = frame_work(w, depth);
    match s.child {
        Some((dir, progress)) => {
            let f = FrameView { dir, id: (w.id)(dir), progress, names: (w.names)(dir) };
            let t = WalkView { stack: s.stack.push(f), child: None, ..s };
            lemma_total_push(s.stack, f, frames);
            lemma_settle_work(w, depth, t);
        },
        None => {
            let dir = s.found[0];
            let f = FrameView {
                dir,
                id: (w.id)(dir),
                progress: at_start(s.glob.floating),
                names: (w.names)(dir),
            };
            let t = WalkView { found: s.found.skip(1), roots: s.roots.push(f), ..s };
            lemma_total_push(s.roots, f, frames);
            lemma_total_first(s.found, found_work(w, depth));
            lemma_settle_work(w, depth, t);
        },
    }
}

/// No directory is also one of those that it is in, and each is one level below the one that it is in,
/// the first one where the base path leads.
spec fn is_shaped(n: nat, stack: Seq<FrameView>, roots: Seq<FrameView>) -> bool {
    &&& forall|i: int| 0 <= i < stack.len() ==> (#[trigger] stack[i]).dir.len() == n + i
    &&& forall|i: int, j: int|
        0 <= i < j < stack.len() ==> (#[trigger] stack[i]).id != (#[trigger] stack[j]).id
    &&& forall|i: int| 0 <= i < roots.len() ==> (#[trigger] roots[i]).dir.len() == n
}

spec fn is_shaped_walk(s: WalkView) -> bool {
    let n = s.glob.base.len();
    is_shaped(n, s.stack, s.roots) && (s.child matches Some((dir, _)) ==> dir.len() == n
        + s.stack.len())
}

proof fn lemma_settled_shape(n: nat, stack: Seq<FrameView>, roots: Seq<FrameView>)
    requires
        is_shaped(n, stack, roots),
    ensures
        is_shaped(n, settled(stack, roots).0, settled(stack, roots).1),
    decreases roots.len(), stack.len(),
{
    if stack.len() > 0 {
        if stack.last().names.len() == 0 {
            lemma_settled_shape(n, stack.drop_last(), roots);
        }
    } else if roots.len() > 0 {
        assert(roots[roots.len() - 1].dir.len() == n);
        lemma_settled_shape(n, seq![roots.last()], roots.drop_last());
    }
}

/// A step keeps the shape.
proof fn lemma_step_shape(w: World, s: WalkView, t: WalkView)
    requires
        is_shaped_walk(s),
        s.valid(),
        forall|k: int|
            0 <= k < s.found.len() ==> (#[trigger] s.found[k]).len() == s.glob.base.len(),
        w.step(s) == Ok::<WalkView, Seq<Seq<u8>>>(t),
    ensures
        is_shaped_walk(t),
{
    let n = s.glob.base.len();
    match requested(s) {
        RequestView::Kind(path) => {
            if s.base is None {
                let m = s.stack.len() - 1;
                let f = s.stack[m];
                let rest = FrameView { names: f.names.skip(1), ..f };
                let stack = s.stack.drop_last().push(rest);
                assert forall|i: int| 0 <= i < stack.len() implies (#[trigger] stack[i]).dir.len()
                    == n + i by {
                    assert(stack[i].dir == s.stack[i].dir);
                }
                assert forall|i: int, j: int| 0 <= i < j < stack.len() implies (
                #[trigger] stack[i]).id != (#[trigger] stack[j]).id by {
                    assert(stack[i].id == s.stack[i].id && stack[j].id == s.stack[j].id);
                }
                lemma_settled_shape(n, stack, s.roots);
            }
        },
        RequestView::Enter(dir) => match s.child {
            Some((_, progress)) => {
                let id = (w.id)(dir);
                let f = FrameView { dir, id, progress, names: (w.names)(dir) };
                let stack = s.stack.push(f);
                assert forall|i: int, j: int| 0 <= i < j < stack.len() implies (
                #[trigger] stack[i]).id != (#[trigger] stack[j]).id by {
                    assert(stack[i] == s.stack[i]);
                    if j < s.stack.len() {
                        assert(stack[j] == s.stack[j]);
                    } else {
                        assert(!has_id(s.stack, id));
                    }
                }
                assert(is_shaped(n, stack, s.roots));
                lemma_settled_shape(n, stack, s.roots);
            },
            None => {
                let f = FrameView {
                    dir,
                    id: (w.id)(dir),
                    progress: at_start(s.glob.floating),
                    names: (w.names)(dir),
                };
                assert(s.found[0].len() == n);
                assert(is_shaped(n, s.stack, s.roots.push(f)));
                lemma_settled_shape(n, s.stack, s.roots.push(f));
            },
        },
        _ => {},
    }
}

proof fn lemma_shape(w: World, glob: GlobView, states: Seq<WalkView>, i: int)
    requires
        searchable(glob),
        w.is_walk(glob, states),
        0 <= i < states.len(),
    ensures
        states[i].glob == glob,
        is_shaped_walk(states[i]),
    decreases i,
{
    if i > 0 {
        lemma_shape(w, glob, states, i - 1);
        lemma_walk_base(w, glob, states, i - 1);
        assert(w.step(states[i - 1]) == Ok::<WalkView, Seq<Seq<u8>>>(states[i - 1 + 1]));
        lemma_step_shape(w, states[i - 1], states[i]);
    }
}

/// The stack is no higher than there are ids.
proof fn lemma_height(w: World, glob: GlobView, states: Seq<WalkView>, i: int)
    requires
        searchable(glob),
        w.is_walk(glob, states),
        0 <= i < states.len(),
    ensures
        states[i].stack.len() <= most_ids(),
{
    let s = states[i];
    let open = s.stack.map_values(|f: FrameView| f.id);
    lemma_shape(w, glob, states, i);
    assert(open.no_duplicates()) by {
        assert forall|k: int, l: int| 0 <= k < open.len() && 0 <= l < open.len() && k != l implies open[k]
            != open[l] by {
            if k < l {
                assert(s.stack[k].id != s.stack[l].id);
            } else {
                assert(s.stack[l].id != s.stack[k].id);
            }
        }
    }
    lemma_ids_few(open);
}

/// How deep a walk goes at most.
spec fn deepest(glob: GlobView) -> nat {
    glob.base.len() + most_ids()
}

/// Every step of a walk leaves less to do.
proof fn lemma_step_less(
    w: World,
    glob: GlobView,
    states: Seq<WalkView>,
    i: int,
    t: WalkView,
)
    requires
        searchable(glob),
        w.is_walk(glob, states),
        0 <= i < states.len(),
        !(requested(states[i]) is Done),
        w.step(states[i]) == Ok::<WalkView, Seq<Seq<u8>>>(t),
    ensures
        left(w, deepest(glob), t) < left(w, deepest(glob), states[i]),
{
    let s = states[i];
    let depth = deepest(glob);
    lemma_walk_base(w, glob, states, i);
    lemma_shape(w, glob, states, i);
    match requested(s) {
        RequestView::Read(_) => {
            lemma_read_less(w, depth, s);
        },
        RequestView::Kind(_) => {
            if s.base is Some {
                lemma_base_less(w, depth, s);
            } else {
                assert(s.stack[s.stack.len() - 1] == s.stack.last());
                lemma_settled(s.stack, s.roots);
                assert(settle(s) == s);
                lemma_height(w, glob, states, i);
                lemma_frame_less(w, depth, s);
            }
        },
        RequestView::Enter(_) => {
            lemma_enter_less(w, depth, s);
        },
        RequestView::Done => {},
    }
}

/// A walk that goes on from these states comes to an end.
proof fn lemma_ends(w: World, glob: GlobView, states: Seq<WalkView>) -> (all: Seq<
    WalkView,
>)
    requires
        searchable(glob),
        w.is_walk(glob, states),
    ensures
        w.is_walk(glob, all),
        requested(all.last()) is Done || w.step(all.last()) is Err,
    decreases left(w, deepest(glob), states.last()),
{
    let s = states.last();
    match w.step(s) {
        Err(_) => states,
        Ok(t) => if requested(s) is Done {
            states
        } else {
            let more = states.push(t);
            assert forall|i: int| 0 <= i < more.len() - 1 implies w.step(#[trigger] more[i]) == Ok::<
                WalkView,
                Seq<Seq<u8>>,
            >(more[i + 1]) by {
                assert(more[i] == states[i]);
                if i < states.len() - 1 {
                    assert(more[i + 1] == states[i + 1]);
                }
            }
            assert(more[0] == states[0]);
            lemma_step_less(w, glob, states, states.len() - 1, t);
            lemma_ends(w, glob, more)
        },
    }
}

/// A walk comes to its end, or is refused a directory that is also one of those that it is in. There may
/// be any number of paths, but there are only so many ids.
pub proof fn law_walk_ends(w: World, glob: GlobView)
    requires
        searchable(glob),
    ensures
        exists|states: Seq<WalkView>| #[trigger]
            w.is_walk(glob, states) && (requested(states.last()) is Done || w.step(
                states.last(),
            ) is Err),
{
    let states = seq![started(glob)];
    assert(w.is_walk(glob, states));
    let all = lemma_ends(w, glob, states);
    assert(w.is_walk(glob, all));
}

} // verus!
