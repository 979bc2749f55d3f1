//! What a walk finds in a file system that does not change under it.
use crate::glob::matching::text_matches;
use crate::glob::parse::GlobView;
use crate::glob::paths::{
    accepted, advanced, at_start, fits, law_progress, no_empty, path_matches, progress_after,
};
use crate::glob::walk::{
    after_enter, after_kind, after_read, among, has_id, lemma_after_enter_valid,
    lemma_after_kind_valid, lemma_after_read_valid, lemma_settled, lemma_started_valid,
    matching_names, requested, searchable, settle, settled, started, BaseView, FrameView,
    RequestView, WalkView,
};
use crate::text::lemma_filter;
use crate::world::{
    is_below, lemma_below_further, lemma_dir_push, lemma_file_below, lemma_file_push, World,
};
use vstd::prelude::*;

verus! {

impl World {
    /// The state after the next request has been answered.
    pub open spec fn step(self, s: WalkView) -> Result<WalkView, Seq<Seq<u8>>> {
        match requested(s) {
            RequestView::Read(dir) => Ok(after_read(s, (self.names)(dir))),
            RequestView::Kind(path) => Ok(after_kind(s, (self.kind)(path))),
            RequestView::Enter(dir) => after_enter(s, (self.id)(dir), (self.names)(dir)),
            RequestView::Done => Ok(s),
        }
    }

    /// The states of a walk for a glob, one after another.
    pub open spec fn is_walk(self, glob: GlobView, states: Seq<WalkView>) -> bool {
        &&& states.len() > 0
        &&& states[0] == started(glob)
        &&& forall|i: int|
            0 <= i < states.len() - 1 ==> self.step(#[trigger] states[i]) == Ok::<
                WalkView,
                Seq<Seq<u8>>,
            >(states[i + 1])
    }
}

/// The path is below the directory by one of the names.
spec fn leads(dir: Seq<Seq<u8>>, names: Seq<Seq<u8>>, path: Seq<Seq<u8>>) -> bool {
    is_below(path, dir) && names.contains(path[dir.len() as int])
}

spec fn todo_leads(todo: Seq<BaseView>, path: Seq<Seq<u8>>) -> bool {
    exists|i: int| 0 <= i < todo.len() && is_below(path, (#[trigger] todo[i]).dir)
}

spec fn found_leads(found: Seq<Seq<Seq<u8>>>, path: Seq<Seq<u8>>) -> bool {
    exists|i: int| 0 <= i < found.len() && is_below(path, #[trigger] found[i])
}

spec fn frames_lead(frames: (Seq<FrameView>, Seq<FrameView>), path: Seq<Seq<u8>>) -> bool {
    exists|f: FrameView| #[trigger] among(frames, f) && leads(f.dir, f.names, path)
}

/// The walk will still come to the path.
spec fn ahead(s: WalkView, path: Seq<Seq<u8>>) -> bool {
    ||| todo_leads(s.todo, path)
    ||| s.base matches Some(b) && leads(b.dir, b.names, path)
    ||| found_leads(s.found, path)
    ||| frames_lead((s.stack, s.roots), path)
    ||| s.child matches Some((dir, _)) && is_below(path, dir)
}

/// The directory has been reached along the base path, up to the segment at `seg`.
spec fn base_true(w: World, glob: GlobView, dir: Seq<Seq<u8>>, seg: nat) -> bool {
    &&& dir.len() == seg
    &&& w.is_dir(dir)
    &&& fits(glob.base.take(seg as int), dir)
}

/// The directory has been reached along the whole base path, and beyond.
spec fn below_base(w: World, glob: GlobView, dir: Seq<Seq<u8>>) -> bool {
    &&& dir.len() >= glob.base.len()
    &&& w.is_dir(dir)
    &&& fits(glob.base, dir.take(glob.base.len() as int))
}

/// The directory is what the state says of it.
spec fn frame_true(w: World, glob: GlobView, f: FrameView) -> bool {
    &&& below_base(w, glob, f.dir)
    &&& f.id == (w.id)(f.dir)
    &&& f.progress == progress_after(glob.floating, f.dir.skip(glob.base.len() as int))
    &&& forall|n: Seq<u8>| #[trigger] f.names.contains(n) ==> (w.names)(f.dir).contains(n)
}

/// Each directory of the stack is below the one before.
spec fn is_chain(stack: Seq<FrameView>) -> bool {
    forall|i: int, j: int|
        0 <= i < j < stack.len() ==> is_below((#[trigger] stack[j]).dir, (#[trigger] stack[i]).dir)
}

/// All that a state says is so.
spec fn is_true(w: World, s: WalkView) -> bool {
    &&& forall|i: int|
        0 <= i < s.matches.len() ==> w.is_file(#[trigger] s.matches[i]) && path_matches(
            s.glob,
            s.matches[i],
        )
    &&& forall|i: int|
        0 <= i < s.todo.len() ==> base_true(w, s.glob, (#[trigger] s.todo[i]).dir, s.todo[i].seg)
    &&& s.base matches Some(b) ==> base_true(w, s.glob, b.dir, b.seg) && forall|n: Seq<u8>|
     #[trigger]
        b.names.contains(n) ==> (w.names)(b.dir).contains(n) && text_matches(
            s.glob.base[b.seg as int],
            n,
        )
    &&& forall|i: int|
        0 <= i < s.found.len() ==> below_base(w, s.glob, #[trigger] s.found[i])
            && s.found[i].len() == s.glob.base.len()
    &&& forall|f: FrameView| #[trigger] among((s.stack, s.roots), f) ==> frame_true(w, s.glob, f)
    &&& is_chain(s.stack)
    &&& s.child matches Some((dir, progress)) ==> {
        &&& below_base(w, s.glob, dir)
        &&& progress == progress_after(s.glob.floating, dir.skip(s.glob.base.len() as int))
        &&& forall|i: int| 0 <= i < s.stack.len() ==> is_below(dir, (#[trigger] s.stack[i]).dir)
    }
}

/// Every file that matches has been found or will be come to.
spec fn is_whole(w: World, s: WalkView) -> bool {
    forall|p: Seq<Seq<u8>>|
        w.is_file(p) && #[trigger] path_matches(s.glob, p) ==> s.matches.contains(p) || ahead(s, p)
}

proof fn lemma_fits_push(glob: GlobView, seg: nat, dir: Seq<Seq<u8>>, name: Seq<u8>)
    requires
        seg < glob.base.len(),
        fits(glob.base.take(seg as int), dir),
        text_matches(glob.base[seg as int], name),
    ensures
        fits(glob.base.take(seg as int + 1), dir.push(name)),
{
    let segments = glob.base.take(seg as int + 1);
    let path = dir.push(name);
    assert forall|i: int| 0 <= i < path.len() implies text_matches(
        #[trigger] segments[i],
        #[trigger] path[i],
    ) by {
        if i < seg {
            assert(text_matches(glob.base.take(seg as int)[i], dir[i]));
        }
    }
}

/// A file that matches has names that match the base path.
proof fn lemma_base_name(glob: GlobView, path: Seq<Seq<u8>>, i: int)
    requires
        path_matches(glob, path),
        0 <= i < glob.base.len(),
    ensures
        i < path.len(),
        text_matches(glob.base[i], path[i]),
        glob.floating.len() == 0 ==> path.len() == glob.base.len(),
{
    if glob.floating.len() > 0 {
        assert(path.take(glob.base.len() as int)[i] == path[i]);
    }
}

/// Leaving directories that are used up changes neither what is true nor what is ahead.
proof fn lemma_settle(w: World, s: WalkView)
    requires
        is_true(w, s),
        s.child is None,
    ensures
        is_true(w, settle(s)),
        forall|p: Seq<Seq<u8>>| ahead(s, p) ==> #[trigger] ahead(settle(s), p),
{
    if s.found.len() == 0 {
        let t = settle(s);
        lemma_settled(s.stack, s.roots);
        let frames = settled(s.stack, s.roots);
        assert((t.stack, t.roots) == frames);
        assert forall|p: Seq<Seq<u8>>| ahead(s, p) implies #[trigger] ahead(t, p) by {
            if frames_lead((s.stack, s.roots), p) {
                let f = choose|f: FrameView| #[trigger]
                    among((s.stack, s.roots), f) && leads(f.dir, f.names, p);
                assert(f.names.len() > 0);
                assert(among(frames, f));
                assert(among((t.stack, t.roots), f));
            }
        }
        assert forall|f: FrameView| #[trigger] among((t.stack, t.roots), f) implies frame_true(
            w,
            s.glob,
            f,
        ) by {
            assert(among(frames, f));
        }
        if t.stack.len() > 1 {
            assert forall|i: int, j: int| 0 <= i < j < t.stack.len() implies is_below(
                (#[trigger] t.stack[j]).dir,
                (#[trigger] t.stack[i]).dir,
            ) by {
                assert(t.stack[i] == s.stack[i] && t.stack[j] == s.stack[j]);
            }
        }
    }
}

proof fn lemma_read(w: World, s: WalkView)
    requires
        s.valid(),
        is_true(w, s),
        is_whole(w, s),
        requested(s) is Read,
    ensures
        is_true(w, after_read(s, (w.names)(s.todo.last().dir))),
        is_whole(w, after_read(s, (w.names)(s.todo.last().dir))),
{
    let n = s.todo.len() - 1;
    let next = s.todo[n];
    let names = (w.names)(next.dir);
    let t = after_read(s, names);
    let segment = s.glob.base[next.seg as int];
    let p = |name: Seq<u8>| text_matches(segment, name);
    let kept = names.filter(p);
    assert(kept == matching_names(s.glob, next.seg, names));
    assert forall|name: Seq<u8>| #[trigger] kept.contains(name) implies names.contains(name)
        && text_matches(segment, name) by {
        lemma_filter(names, p, name);
    }
    assert(base_true(w, s.glob, s.todo[n].dir, s.todo[n].seg));
    assert forall|path: Seq<Seq<u8>>|
        w.is_file(path) && #[trigger] path_matches(s.glob, path) implies t.matches.contains(path)
        || ahead(t, path) by {
        if !s.matches.contains(path) {
            if todo_leads(s.todo, path) {
                let i = choose|i: int|
                    0 <= i < s.todo.len() && is_below(path, (#[trigger] s.todo[i]).dir);
                if i < n {
                    assert(is_below(path, t.todo[i].dir));
                } else {
                    lemma_file_below(w, path, next.dir);
                    lemma_base_name(s.glob, path, next.seg as int);
                    let name = path[next.dir.len() as int];
                    lemma_filter(names, p, name);
                    assert(kept.len() > 0);
                    assert(t.base == Some(BaseView { names: kept, ..next }));
                    assert(leads(next.dir, kept, path));
                }
            }
        }
    }
}

proof fn lemma_base_kind(w: World, s: WalkView)
    requires
        s.valid(),
        is_true(w, s),
        is_whole(w, s),
        s.base is Some,
    ensures
        is_true(w, after_kind(s, (w.kind)(s.base->0.dir.push(s.base->0.names[0])))),
        is_whole(w, after_kind(s, (w.kind)(s.base->0.dir.push(s.base->0.names[0])))),
{
    let b = s.base->0;
    let name = b.names[0];
    let path = b.dir.push(name);
    let ty = (w.kind)(path);
    let t = after_kind(s, ty);
    let n = s.glob.base.len();
    assert(b.names.contains(name));
    lemma_fits_push(s.glob, b.seg, b.dir, name);
    if ty is Dir {
        lemma_dir_push(w, b.dir, name);
    } else {
        lemma_file_push(w, b.dir, name);
    }
    if b.seg + 1 == n {
        assert(s.glob.base.take(b.seg as int + 1) == s.glob.base);
        assert(path.take(n as int) == path);
    }
    assert forall|name: Seq<u8>| #[trigger] b.names.skip(1).contains(name) implies b.names.contains(
        name,
    ) by {
        let i = choose|i: int| 0 <= i < b.names.skip(1).len() && b.names.skip(1)[i] == name;
        assert(b.names[i + 1] == name);
    }
    assert forall|p: Seq<Seq<u8>>| s.matches.contains(p) implies #[trigger] t.matches.contains(p) by {
        let i = choose|i: int| 0 <= i < s.matches.len() && s.matches[i] == p;
        assert(t.matches[i] == p);
    }
    assert forall|p: Seq<Seq<u8>>|
        w.is_file(p) && #[trigger] path_matches(s.glob, p) implies t.matches.contains(p) || ahead(
        t,
        p,
    ) by {
        if !s.matches.contains(p) {
            if leads(b.dir, b.names, p) {
                let next = p[b.dir.len() as int];
                let i = choose|i: int| 0 <= i < b.names.len() && b.names[i] == next;
                if i > 0 {
                    assert(b.names.skip(1)[i - 1] == next);
                    assert(b.names.skip(1).contains(next));
                    assert(t.base is Some);
                } else {
                    lemma_file_below(w, p, b.dir);
                    lemma_base_name(s.glob, p, b.seg as int);
                    if ty is File {
                        if b.seg + 1 < n {
                            lemma_base_name(s.glob, p, b.seg as int + 1);
                        } else if s.glob.floating.len() > 0 {
                            lemma_floats_some(s.glob, p);
                        } else {
                            assert(t.matches[s.matches.len() as int] == p);
                        }
                    } else if b.seg + 1 < n {
                        assert(is_below(p, t.todo[s.todo.len() as int].dir));
                    } else if s.glob.floating.len() > 0 {
                        assert(is_below(p, t.found[s.found.len() as int]));
                    }
                }
            } else if todo_leads(s.todo, p) {
                let i = choose|i: int|
                    0 <= i < s.todo.len() && is_below(p, (#[trigger] s.todo[i]).dir);
                assert(is_below(p, t.todo[i].dir));
            } else if found_leads(s.found, p) {
                let i = choose|i: int| 0 <= i < s.found.len() && is_below(p, #[trigger] s.found[i]);
                assert(is_below(p, t.found[i]));
            }
        }
    }
}

/// A path that matches floating paths has a name beyond the base path.
proof fn lemma_floats_some(glob: GlobView, path: Seq<Seq<u8>>)
    requires
        glob.well_formed(),
        glob.floating.len() > 0,
        path_matches(glob, path),
    ensures
        path.len() > glob.base.len(),
{
    assert(glob.floating[0].len() > 0);
}

proof fn lemma_floating_kind(w: World, s: WalkView)
    requires
        s.valid(),
        is_true(w, s),
        is_whole(w, s),
        requested(s) is Kind,
        s.base is None,
    ensures
        is_true(w, after_kind(s, (w.kind)(s.stack.last().dir.push(s.stack.last().names[0])))),
        is_whole(w, after_kind(s, (w.kind)(s.stack.last().dir.push(s.stack.last().names[0])))),
{
    let m = s.stack.len() - 1;
    let f = s.stack[m];
    let name = f.names[0];
    let path = f.dir.push(name);
    let ty = (w.kind)(path);
    let n = s.glob.base.len() as int;
    let left = FrameView { names: f.names.skip(1), ..f };
    let stack = s.stack.drop_last().push(left);
    let matches = if ty is File && accepted(s.glob.floating, f.progress, name) {
        s.matches.push(path)
    } else {
        s.matches
    };
    let child = if ty is Dir {
        Some((path, advanced(s.glob.floating, f.progress, name)))
    } else {
        None
    };
    // The state before directories that are used up are left.
    let t = WalkView { stack, matches, child, ..s };
    lemma_settled(s.stack, s.roots);
    assert(f.names.contains(name));
    assert(s.stack.contains(f));
    assert(among((s.stack, s.roots), f));
    assert(path.take(n) =~= f.dir.take(n));
    assert(path.skip(n) =~= f.dir.skip(n).push(name));
    assert(path.skip(n).drop_last() =~= f.dir.skip(n));
    assert(no_empty(s.glob.floating));
    law_progress(s.glob.floating, f.dir.skip(n), name);
    if ty is Dir {
        lemma_dir_push(w, f.dir, name);
    } else {
        lemma_file_push(w, f.dir, name);
    }
    assert forall|x: Seq<u8>| #[trigger] left.names.contains(x) implies f.names.contains(x) by {
        let i = choose|i: int| 0 <= i < left.names.len() && left.names[i] == x;
        assert(f.names[i + 1] == x);
    }
    assert(frame_true(w, s.glob, left));
    assert forall|g: FrameView| #[trigger] among((t.stack, t.roots), g) implies frame_true(
        w,
        s.glob,
        g,
    ) by {
        if t.stack.contains(g) {
            let i = choose|i: int| 0 <= i < t.stack.len() && t.stack[i] == g;
            if i < m {
                assert(s.stack[i] == g);
                assert(among((s.stack, s.roots), g));
            }
        } else {
            assert(among((s.stack, s.roots), g));
        }
    }
    assert forall|i: int, j: int| 0 <= i < j < t.stack.len() implies is_below(
        (#[trigger] t.stack[j]).dir,
        (#[trigger] t.stack[i]).dir,
    ) by {
        assert(t.stack[i].dir == s.stack[i].dir && t.stack[j].dir == s.stack[j].dir);
        assert(is_below(s.stack[j].dir, s.stack[i].dir));
    }
    if ty is Dir {
        assert(path.take(f.dir.len() as int) =~= f.dir);
        assert forall|i: int| 0 <= i < t.stack.len() implies is_below(
            path,
            (#[trigger] t.stack[i]).dir,
        ) by {
            assert(t.stack[i].dir == s.stack[i].dir);
            if i < m {
                assert(is_below(s.stack[m].dir, s.stack[i].dir));
                lemma_below_further(path, f.dir, s.stack[i].dir);
            }
        }
    }
    assert(is_true(w, t));
    assert forall|p: Seq<Seq<u8>>|
        w.is_file(p) && #[trigger] path_matches(s.glob, p) implies t.matches.contains(p) || ahead(
        t,
        p,
    ) by {
        if s.matches.contains(p) {
            let i = choose|i: int| 0 <= i < s.matches.len() && s.matches[i] == p;
            assert(t.matches[i] == p);
        } else if frames_lead((s.stack, s.roots), p) {
            let g = choose|g: FrameView| #[trigger]
                among((s.stack, s.roots), g) && leads(g.dir, g.names, p);
            if s.stack.contains(g) {
                let i = choose|i: int| 0 <= i < s.stack.len() && s.stack[i] == g;
                if i < m {
                    assert(t.stack[i] == g);
                    assert(among((t.stack, t.roots), g));
                } else {
                    let next = p[f.dir.len() as int];
                    let k = choose|k: int| 0 <= k < f.names.len() && f.names[k] == next;
                    if k > 0 {
                        assert(left.names[k - 1] == next);
                        assert(t.stack[m] == left);
                        assert(among((t.stack, t.roots), left));
                    } else {
                        lemma_file_below(w, p, f.dir);
                        if ty is File {
                            assert(t.matches[s.matches.len() as int] == p);
                        }
                    }
                }
            } else {
                assert(among((t.stack, t.roots), g));
            }
        }
    }
    if ty is File {
        lemma_settle(w, t);
    }
}

proof fn lemma_enter(w: World, s: WalkView)
    requires
        s.valid(),
        is_true(w, s),
        is_whole(w, s),
        requested(s) is Enter,
    ensures
        w.step(s) matches Ok(t) ==> is_true(w, t) && is_whole(w, t),
        w.step(s) matches Err(dir) ==> w.is_loop(dir),
{
    let dir = match s.child {
        Some((dir, _)) => dir,
        None => s.found[0],
    };
    let id = (w.id)(dir);
    let names = (w.names)(dir);
    match s.child {
        Some((_, progress)) => {
            if has_id(s.stack, id) {
                let i = choose|i: int| 0 <= i < s.stack.len() && (#[trigger] s.stack[i]).id == id;
                assert(s.stack.contains(s.stack[i]));
                assert(among((s.stack, s.roots), s.stack[i]));
                assert(frame_true(w, s.glob, s.stack[i]));
                assert(is_below(dir, s.stack[i].dir));
                assert((w.id)(s.stack[i].dir) == (w.id)(dir));
                assert(w.step(s) == Err::<WalkView, Seq<Seq<u8>>>(dir));
            } else {
                let f = FrameView { dir, id, progress, names };
                let t = WalkView { stack: s.stack.push(f), child: None, ..s };
                lemma_entered(w, s, t, f);
                assert forall|i: int, j: int| 0 <= i < j < t.stack.len() implies is_below(
                    (#[trigger] t.stack[j]).dir,
                    (#[trigger] t.stack[i]).dir,
                ) by {
                    assert(t.stack[i] == s.stack[i]);
                    if j < s.stack.len() {
                        assert(t.stack[j] == s.stack[j]);
                    }
                }
                assert forall|p: Seq<Seq<u8>>| w.is_file(p) && ahead(s, p) implies #[trigger] ahead(
                    t,
                    p,
                ) by {
                    if is_below(p, dir) {
                        lemma_file_below(w, p, dir);
                        assert(t.stack[s.stack.len() as int] == f);
                        assert(among((t.stack, t.roots), f));
                    } else {
                        lemma_entered_ahead(s, t, f, p);
                    }
                }
                lemma_settle(w, t);
            }
        },
        None => {
            let n = s.glob.base.len() as int;
            let f = FrameView { dir, id, progress: at_start(s.glob.floating), names };
            let t = WalkView { found: s.found.skip(1), roots: s.roots.push(f), ..s };
            assert(dir.skip(n) =~= seq![]);
            lemma_entered(w, s, t, f);
            assert forall|i: int| 0 <= i < t.found.len() implies below_base(
                w,
                s.glob,
                #[trigger] t.found[i],
            ) && t.found[i].len() == n by {
                assert(t.found[i] == s.found[i + 1]);
            }
            assert forall|p: Seq<Seq<u8>>| w.is_file(p) && ahead(s, p) implies #[trigger] ahead(
                t,
                p,
            ) by {
                if is_below(p, dir) {
                    lemma_file_below(w, p, dir);
                    assert(t.roots[s.roots.len() as int] == f);
                    assert(among((t.stack, t.roots), f));
                } else if found_leads(s.found, p) {
                    let i = choose|i: int|
                        0 <= i < s.found.len() && is_below(p, #[trigger] s.found[i]);
                    assert(is_below(p, t.found[i - 1]));
                } else {
                    lemma_entered_ahead(s, t, f, p);
                }
            }
            lemma_settle(w, t);
        },
    }
}

/// A directory that is entered keeps what is true of the others.
proof fn lemma_entered(w: World, s: WalkView, t: WalkView, f: FrameView)
    requires
        is_true(w, s),
        frame_true(w, s.glob, f),
        t.glob == s.glob,
        t.stack == s.stack && t.roots == s.roots.push(f) || t.stack == s.stack.push(f) && t.roots
            == s.roots,
    ensures
        forall|g: FrameView| #[trigger] among((t.stack, t.roots), g) ==> frame_true(w, s.glob, g),
{
    assert forall|g: FrameView| #[trigger] among((t.stack, t.roots), g) implies frame_true(
        w,
        s.glob,
        g,
    ) by {
        if g != f {
            if t.stack.contains(g) {
                let i = choose|i: int| 0 <= i < t.stack.len() && t.stack[i] == g;
                assert(s.stack[i] == g);
            } else {
                let i = choose|i: int| 0 <= i < t.roots.len() && t.roots[i] == g;
                assert(s.roots[i] == g);
            }
            assert(among((s.stack, s.roots), g));
        }
    }
}

/// A directory that is entered leaves the others ahead.
proof fn lemma_entered_ahead(s: WalkView, t: WalkView, f: FrameView, p: Seq<Seq<u8>>)
    requires
        frames_lead((s.stack, s.roots), p),
        t.stack == s.stack && t.roots == s.roots.push(f) || t.stack == s.stack.push(f) && t.roots
            == s.roots,
    ensures
        ahead(t, p),
{
    let g = choose|g: FrameView| #[trigger]
        among((s.stack, s.roots), g) && leads(g.dir, g.names, p);
    if s.stack.contains(g) {
        let i = choose|i: int| 0 <= i < s.stack.len() && s.stack[i] == g;
        assert(t.stack[i] == g);
    } else {
        let i = choose|i: int| 0 <= i < s.roots.len() && s.roots[i] == g;
        assert(t.roots[i] == g);
    }
    assert(among((t.stack, t.roots), g));
}

proof fn lemma_step(w: World, s: WalkView)
    requires
        s.valid(),
        is_true(w, s),
        is_whole(w, s),
    ensures
        w.step(s) matches Ok(t) ==> t.valid() && is_true(w, t) && is_whole(w, t),
        w.step(s) matches Err(dir) ==> w.is_loop(dir),
{
    match requested(s) {
        RequestView::Read(dir) => {
            lemma_read(w, s);
            lemma_after_read_valid(s, (w.names)(dir));
        },
        RequestView::Kind(path) => {
            if s.base is Some {
                lemma_base_kind(w, s);
            } else {
                lemma_floating_kind(w, s);
            }
            lemma_after_kind_valid(s, (w.kind)(path));
        },
        RequestView::Enter(dir) => {
            lemma_enter(w, s);
            lemma_after_enter_valid(s, (w.id)(dir), (w.names)(dir));
        },
        RequestView::Done => {},
    }
}

proof fn lemma_started(w: World, glob: GlobView)
    requires
        searchable(glob),
    ensures
        started(glob).valid(),
        is_true(w, started(glob)),
        is_whole(w, started(glob)),
{
    let s = started(glob);
    let here: Seq<Seq<u8>> = seq![];
    lemma_started_valid(glob);
    assert(glob.base.take(0) =~= seq![]);
    assert forall|p: Seq<Seq<u8>>| w.is_file(p) && #[trigger] path_matches(glob, p) implies ahead(
        s,
        p,
    ) by {
        assert(p.take(0) =~= here);
        assert(is_below(p, here));
        if glob.base.len() > 0 {
            assert(s.todo[0].dir == here);
        } else {
            assert(s.found[0] == here);
        }
    }
    if glob.base.len() == 0 {
        assert(fits(glob.base, here.take(0)));
    }
}

proof fn lemma_walk(w: World, glob: GlobView, states: Seq<WalkView>, i: int)
    requires
        searchable(glob),
        w.is_walk(glob, states),
        0 <= i < states.len(),
    ensures
        states[i].glob == glob,
        states[i].valid(),
        is_true(w, states[i]),
        is_whole(w, states[i]),
    decreases i,
{
    if i == 0 {
        lemma_started(w, glob);
    } else {
        lemma_walk(w, glob, states, i - 1);
        lemma_step(w, states[i - 1]);
        assert(w.step(states[i - 1]) == Ok::<WalkView, Seq<Seq<u8>>>(states[i - 1 + 1]));
    }
}

/// How deep the directories are that the base path leads through, and those that it leads to.
pub proof fn lemma_walk_base(w: World, glob: GlobView, states: Seq<WalkView>, i: int)
    requires
        searchable(glob),
        w.is_walk(glob, states),
        0 <= i < states.len(),
    ensures
        states[i].valid(),
        states[i].base matches Some(b) ==> b.dir.len() < glob.base.len(),
        forall|k: int|
            0 <= k < states[i].found.len() ==> (#[trigger] states[i].found[k]).len()
                == glob.base.len(),
{
    lemma_walk(w, glob, states, i);
}

/// A walk that has come to its end has found the files that the glob matches, and no others.
pub proof fn law_walk_finds(w: World, glob: GlobView, states: Seq<WalkView>, path: Seq<Seq<u8>>)
    requires
        searchable(glob),
        w.is_walk(glob, states),
        requested(states.last()) is Done,
    ensures
        states.last().matches.contains(path) <==> w.is_file(path) && path_matches(glob, path),
{
    let s = states.last();
    lemma_walk(w, glob, states, states.len() - 1);
    lemma_settled(s.stack, s.roots);
    if s.matches.contains(path) {
        let i = choose|i: int| 0 <= i < s.matches.len() && s.matches[i] == path;
    }
}

/// A walk is only ever refused because a directory is also one of those that it is in.
pub proof fn law_walk_refused(w: World, glob: GlobView, states: Seq<WalkView>)
    requires
        searchable(glob),
        w.is_walk(glob, states),
    ensures
        w.step(states.last()) matches Err(dir) ==> w.is_loop(dir),
{
    lemma_walk(w, glob, states, states.len() - 1);
    lemma_step(w, states.last());
}

} // verus!
