//! Matching the names of a path against the segments of a glob.
use crate::glob::bits::SegBits;
use crate::glob::matching::text_matches;
use crate::glob::parse::{path_views, segment_views, FixedPath, GlobView};
use crate::glob::pattern::{Segment, SegmentView};
use crate::text::woven;
use vstd::prelude::*;

verus! {

/// There are as many names as segments, and each name matches its segment.
pub open spec fn fits(segments: Seq<SegmentView>, names: Seq<Seq<u8>>) -> bool {
    &&& names.len() == segments.len()
    &&& forall|i: int|
        0 <= i < names.len() ==> text_matches(#[trigger] segments[i], #[trigger] names[i])
}

/// The names match the paths in order, with any number of names before each path and none behind the
/// last.
pub open spec fn floats(paths: Seq<Seq<SegmentView>>, names: Seq<Seq<u8>>) -> bool
    decreases paths.len(),
{
    paths.len() > 0 && exists|k: int|
        0 <= k <= names.len() && {
            let rest = #[trigger] names.skip(k);
            let n = paths[0].len() as int;
            &&& rest.len() >= n
            &&& fits(paths[0], rest.take(n))
            &&& if paths.len() == 1 {
                rest.len() == n
            } else {
                floats(paths.skip(1), rest.skip(n))
            }
        }
}

/// The names are a path that the glob matches, from the directory where the match starts.
pub open spec fn path_matches(glob: GlobView, names: Seq<Seq<u8>>) -> bool {
    let n = glob.base.len() as int;
    if glob.floating.len() == 0 {
        fits(glob.base, names)
    } else {
        &&& names.len() >= n
        &&& fits(glob.base, names.take(n))
        &&& floats(glob.floating, names.skip(n))
    }
}

/// How far the names of a directory have matched a list of floating paths: all paths before `path`
/// have been found, and `bits[i]` says whether the last names match its first segments up to the one
/// at `i`.
#[verifier::ext_equal]
pub struct Progress {
    pub path: nat,
    pub bits: Seq<bool>,
}

/// No segment of a path with `len` segments has matched.
pub open spec fn no_bits(len: nat) -> Seq<bool> {
    Seq::new((len - 1) as nat, |i: int| false)
}

/// Where a match of the floating paths starts.
pub open spec fn at_start(paths: Seq<Seq<SegmentView>>) -> Progress {
    Progress { path: 0, bits: no_bits(paths[0].len()) }
}

/// The segment at `i` may be matched next.
pub open spec fn is_live(bits: Seq<bool>, i: int) -> bool {
    i == 0 || bits[i - 1]
}

/// The name matches the last segment, and the names before it match those before.
pub open spec fn completes(segments: Seq<SegmentView>, bits: Seq<bool>, name: Seq<u8>) -> bool {
    is_live(bits, segments.len() - 1) && text_matches(segments.last(), name)
}

/// What a directory makes of the progress of the directory that it is in.
pub open spec fn advanced(paths: Seq<Seq<SegmentView>>, p: Progress, name: Seq<u8>) -> Progress {
    let segments = paths[p.path as int];
    if completes(segments, p.bits, name) && p.path + 1 < paths.len() {
        Progress { path: p.path + 1, bits: no_bits(paths[p.path as int + 1].len()) }
    } else {
        Progress {
            path: p.path,
            bits: Seq::new(
                (segments.len() - 1) as nat,
                |i: int| is_live(p.bits, i) && text_matches(segments[i], name),
            ),
        }
    }
}

/// A file of that name, in a directory of that progress, matches.
pub open spec fn accepted(paths: Seq<Seq<SegmentView>>, p: Progress, name: Seq<u8>) -> bool {
    p.path + 1 == paths.len() && completes(paths[p.path as int], p.bits, name)
}

/// The progress at the end of the names, all of them names of directories.
pub open spec fn progress_after(paths: Seq<Seq<SegmentView>>, names: Seq<Seq<u8>>) -> Progress
    decreases names.len(),
{
    if names.len() == 0 {
        at_start(paths)
    } else {
        advanced(paths, progress_after(paths, names.drop_last()), names.last())
    }
}

/// No path is empty.
pub open spec fn no_empty(paths: Seq<Seq<SegmentView>>) -> bool {
    forall|i: int| 0 <= i < paths.len() ==> (#[trigger] paths[i]).len() > 0
}

/// The progress is one that the paths allow.
pub open spec fn allowed(paths: Seq<Seq<SegmentView>>, p: Progress) -> bool {
    p.path < paths.len() && p.bits.len() == paths[p.path as int].len() - 1
}

/// The names, a file's below directories, match from a progress on.
spec fn accepts(paths: Seq<Seq<SegmentView>>, p: Progress, names: Seq<Seq<u8>>) -> bool
    decreases names.len(),
{
    if names.len() <= 1 {
        names.len() == 1 && accepted(paths, p, names[0])
    } else {
        accepts(paths, advanced(paths, p, names[0]), names.skip(1))
    }
}

/// The names go on with the segments of `paths[path]` from `from` on, and with the later paths.
spec fn resumes(paths: Seq<Seq<SegmentView>>, path: int, from: int, names: Seq<Seq<u8>>) -> bool {
    let n = paths[path].len() - from;
    &&& names.len() >= n
    &&& fits(paths[path].skip(from), names.take(n))
    &&& if path + 1 == paths.len() {
        names.len() == n
    } else {
        floats(paths.skip(path + 1), names.skip(n))
    }
}

/// What `accepts` comes to: the names match the paths anew, or complete a match that was begun.
spec fn meant(paths: Seq<Seq<SegmentView>>, p: Progress, names: Seq<Seq<u8>>) -> bool {
    ||| floats(paths.skip(p.path as int), names)
    ||| exists|j: int|
        0 <= j < p.bits.len() && p.bits[j] && #[trigger] resumes(
            paths,
            p.path as int,
            j + 1,
            names,
        )
}

proof fn lemma_floats(paths: Seq<Seq<SegmentView>>, path: int, names: Seq<Seq<u8>>)
    requires
        0 <= path < paths.len(),
    ensures
        floats(paths.skip(path), names) <==> exists|k: int|
            0 <= k <= names.len() && resumes(paths, path, 0, #[trigger] names.skip(k)),
{
    let left = paths.skip(path);
    assert(left[0] == paths[path]);
    assert(left.skip(1) == paths.skip(path + 1));
    assert(paths[path].skip(0) == paths[path]);
    if floats(left, names) {
        let n = left[0].len() as int;
        let k = choose|k: int|
            0 <= k <= names.len() && {
                let rest = #[trigger] names.skip(k);
                &&& rest.len() >= n
                &&& fits(left[0], rest.take(n))
                &&& if left.len() == 1 {
                    rest.len() == n
                } else {
                    floats(left.skip(1), rest.skip(n))
                }
            };
        assert(resumes(paths, path, 0, names.skip(k)));
    }
    if exists|k: int| 0 <= k <= names.len() && resumes(paths, path, 0, #[trigger] names.skip(k)) {
        let k = choose|k: int|
            0 <= k <= names.len() && resumes(paths, path, 0, #[trigger] names.skip(k));
        assert(names.skip(k).len() >= left[0].len());
    }
}

/// More names in front do no harm.
proof fn lemma_floats_longer(paths: Seq<Seq<SegmentView>>, path: int, names: Seq<Seq<u8>>, n: int)
    requires
        0 <= path < paths.len(),
        0 <= n <= names.len(),
        floats(paths.skip(path), names.skip(n)),
    ensures
        floats(paths.skip(path), names),
{
    lemma_floats(paths, path, names);
    lemma_floats(paths, path, names.skip(n));
    let k = choose|k: int|
        0 <= k <= names.skip(n).len() && resumes(paths, path, 0, #[trigger] names.skip(n).skip(k));
    assert(names.skip(n).skip(k) == names.skip(n + k));
}

proof fn lemma_floats_none(paths: Seq<Seq<SegmentView>>, path: int)
    requires
        0 <= path < paths.len(),
        no_empty(paths),
    ensures
        !floats(paths.skip(path), seq![]),
{
    lemma_floats(paths, path, seq![]);
    assert forall|k: int| 0 <= k <= 0 implies !resumes(
        paths,
        path,
        0,
        #[trigger] Seq::<Seq<u8>>::empty().skip(k),
    ) by {}
}

/// A match that goes on takes the first name for its next segment.
proof fn lemma_resumes(paths: Seq<Seq<SegmentView>>, path: int, from: int, names: Seq<Seq<u8>>)
    requires
        0 <= path < paths.len(),
        0 <= from < paths[path].len(),
        names.len() > 0,
    ensures
        resumes(paths, path, from, names) <==> text_matches(paths[path][from], names[0]) && if from
            + 1 < paths[path].len() {
            resumes(paths, path, from + 1, names.skip(1))
        } else if path + 1 == paths.len() {
            names.len() == 1
        } else {
            floats(paths.skip(path + 1), names.skip(1))
        },
{
    let segments = paths[path];
    let n = segments.len() - from;
    let rest = names.skip(1);
    if names.len() >= n {
        assert(names.take(n)[0] == names[0]);
        assert(segments.skip(from)[0] == segments[from]);
        assert(rest.skip(n - 1) == names.skip(n));
        assert forall|i: int| 0 <= i < n - 1 implies #[trigger] rest.take(n - 1)[i] == names.take(
            n,
        )[i + 1] && #[trigger] segments.skip(from + 1)[i] == segments.skip(from)[i + 1] by {}
        if fits(segments.skip(from), names.take(n)) {
            assert(fits(segments.skip(from + 1), rest.take(n - 1))) by {
                assert forall|i: int| 0 <= i < n - 1 implies text_matches(
                    #[trigger] segments.skip(from + 1)[i],
                    #[trigger] rest.take(n - 1)[i],
                ) by {
                    assert(text_matches(segments.skip(from)[i + 1], names.take(n)[i + 1]));
                }
            }
        }
        if text_matches(segments[from], names[0]) && fits(
            segments.skip(from + 1),
            rest.take(n - 1),
        ) {
            assert(fits(segments.skip(from), names.take(n))) by {
                assert forall|i: int| 0 <= i < n implies text_matches(
                    #[trigger] segments.skip(from)[i],
                    #[trigger] names.take(n)[i],
                ) by {
                    if i > 0 {
                        assert(text_matches(
                            segments.skip(from + 1)[i - 1],
                            rest.take(n - 1)[i - 1],
                        ));
                    }
                }
            }
        }
        if n == 1 {
            assert(fits(segments.skip(from + 1), rest.take(0)));
        }
    }
}

/// What is meant by a progress is what is meant by the progress in the next directory.
proof fn lemma_meant_step(paths: Seq<Seq<SegmentView>>, p: Progress, names: Seq<Seq<u8>>)
    requires
        no_empty(paths),
        allowed(paths, p),
        names.len() > 1,
    ensures
        meant(paths, p, names) <==> meant(paths, advanced(paths, p, names[0]), names.skip(1)),
        allowed(paths, advanced(paths, p, names[0])),
{
    let path = p.path as int;
    let segments = paths[path];
    let n = segments.len() as int;
    let name = names[0];
    let rest = names.skip(1);
    let q = advanced(paths, p, name);
    let moves = completes(segments, p.bits, name) && path + 1 < paths.len();
    assert(segments.last() == segments[n - 1]);
    lemma_floats(paths, path, names);
    lemma_floats(paths, path, rest);
    assert(names.skip(0) == names);
    assert forall|k: int| 0 <= k <= rest.len() implies #[trigger] rest.skip(k) == names.skip(
        k + 1,
    ) by {}
    // A match that goes on from a live segment is meant by the next progress.
    assert forall|i: int| 0 <= i < n && is_live(p.bits, i) && resumes(paths, path, i, names) implies (
    if moves {
        floats(paths.skip(path + 1), rest)
    } else {
        i + 1 < n && q.bits[i] && resumes(paths, path, i + 1, rest)
    }) by {
        lemma_resumes(paths, path, i, names);
        if i + 1 < n && moves {
            lemma_floats_longer(paths, path + 1, rest, n - (i + 1));
        }
    }
    if moves {
        assert(paths.skip(q.path as int) == paths.skip(path + 1));
        if floats(paths.skip(path), rest) {
            let k = choose|k: int|
                0 <= k <= rest.len() && resumes(paths, path, 0, #[trigger] rest.skip(k));
            assert(rest.skip(k).skip(n) == rest.skip(k + n));
            lemma_floats_longer(paths, path + 1, rest, k + n);
        }
    }
    if meant(paths, p, names) {
        if floats(paths.skip(path), names) {
            let k = choose|k: int|
                0 <= k <= names.len() && resumes(paths, path, 0, #[trigger] names.skip(k));
            if k == 0 {
                assert(is_live(p.bits, 0));
            } else {
                assert(rest.skip(k - 1) == names.skip(k));
            }
        } else {
            let j = choose|j: int|
                0 <= j < p.bits.len() && p.bits[j] && #[trigger] resumes(paths, path, j + 1, names);
            assert(is_live(p.bits, j + 1));
        }
        assert(meant(paths, q, rest));
    }
    if meant(paths, q, rest) {
        if moves {
            assert(floats(paths.skip(path + 1), rest)) by {
                if !floats(paths.skip(path + 1), rest) {
                    let j = choose|j: int|
                        0 <= j < q.bits.len() && q.bits[j] && #[trigger] resumes(
                            paths,
                            q.path as int,
                            j + 1,
                            rest,
                        );
                    assert(!q.bits[j]);
                }
            }
            lemma_resumes(paths, path, n - 1, names);
            if n > 1 {
                assert(resumes(paths, path, (n - 2) + 1, names));
            }
        } else if floats(paths.skip(path), rest) {
            lemma_floats_longer(paths, path, names, 1);
        } else {
            let j = choose|j: int|
                0 <= j < q.bits.len() && q.bits[j] && #[trigger] resumes(paths, path, j + 1, rest);
            lemma_resumes(paths, path, j, names);
            if j > 0 {
                assert(resumes(paths, path, (j - 1) + 1, names));
            }
        }
        assert(meant(paths, p, names));
    }
}

proof fn lemma_accepts(paths: Seq<Seq<SegmentView>>, p: Progress, names: Seq<Seq<u8>>)
    requires
        no_empty(paths),
        allowed(paths, p),
        names.len() > 0,
    ensures
        accepts(paths, p, names) <==> meant(paths, p, names),
    decreases names.len(),
{
    if names.len() > 1 {
        lemma_meant_step(paths, p, names);
        lemma_accepts(paths, advanced(paths, p, names[0]), names.skip(1));
    } else {
        let path = p.path as int;
        let n = paths[path].len() as int;
        assert(paths[path].last() == paths[path][n - 1]);
        assert(names.skip(1) =~= seq![]);
        assert(names.skip(0) == names);
        if path + 1 < paths.len() {
            lemma_floats_none(paths, path + 1);
        }
        assert forall|i: int| 0 <= i < n && #[trigger] resumes(paths, path, i, names) implies i == n - 1
            && path + 1 == paths.len() && text_matches(paths[path][i], names[0]) by {
            lemma_resumes(paths, path, i, names);
        }
        lemma_resumes(paths, path, n - 1, names);
        lemma_floats(paths, path, names);
        if accepts(paths, p, names) {
            assert(resumes(paths, path, n - 1, names));
            if n == 1 {
                assert(resumes(paths, path, 0, names.skip(0)));
            } else {
                assert(resumes(paths, path, (n - 2) + 1, names));
            }
        }
        if floats(paths.skip(path), names) {
            let k = choose|k: int|
                0 <= k <= names.len() && resumes(paths, path, 0, #[trigger] names.skip(k));
            if k == 1 {
                assert(names.skip(k).len() == 0);
            }
        }
    }
}

proof fn lemma_accepts_from(paths: Seq<Seq<SegmentView>>, dirs: Seq<Seq<u8>>, names: Seq<Seq<u8>>)
    requires
        no_empty(paths),
        paths.len() > 0,
        names.len() > 0,
    ensures
        accepts(paths, at_start(paths), dirs + names) <==> accepts(
            paths,
            progress_after(paths, dirs),
            names,
        ),
    decreases dirs.len(),
{
    if dirs.len() == 0 {
        assert(dirs + names == names);
    } else {
        let longer = seq![dirs.last()] + names;
        assert(dirs.drop_last() + longer == dirs + names);
        assert(longer.skip(1) == names);
        lemma_accepts_from(paths, dirs.drop_last(), longer);
    }
}

/// Following the names of directories one at a time, and going on to the next path as soon as one is
/// found, misses nothing: a file matches in the end exactly if its names match the paths in some way.
pub proof fn law_progress(paths: Seq<Seq<SegmentView>>, dirs: Seq<Seq<u8>>, name: Seq<u8>)
    requires
        no_empty(paths),
        paths.len() > 0,
    ensures
        accepted(paths, progress_after(paths, dirs), name) <==> floats(paths, dirs.push(name)),
{
    let names = seq![name];
    assert(dirs + names == dirs.push(name));
    lemma_accepts_from(paths, dirs, names);
    lemma_accepts(paths, at_start(paths), dirs.push(name));
    assert(paths.skip(0) == paths);
    let p = at_start(paths);
    assert forall|j: int| 0 <= j < p.bits.len() implies !p.bits[j] by {}
}

/// Whether the name completes the segments.
fn complete(segments: &Vec<Segment>, bits: &SegBits, name: &Vec<u8>) -> (r: bool)
    requires
        segments@.len() > 0,
        bits@.len() == segments@.len() - 1,
    ensures
        r == completes(segment_views(segments@), bits@, name@),
{
    let ghost views = segment_views(segments@);
    assert(views.last() == segments@[segments@.len() - 1]@);
    bits.last().unwrap_or(true) && segments[segments.len() - 1].match_text(name)
}

/// Whether a file of that name matches.
pub fn accept(paths: &Vec<FixedPath>, path: usize, bits: &SegBits, name: &Vec<u8>) -> (r: bool)
    requires
        no_empty(path_views(paths@)),
        allowed(path_views(paths@), (Progress { path: path as nat, bits: bits@ })),
    ensures
        r == accepted(path_views(paths@), (Progress { path: path as nat, bits: bits@ }), name@),
{
    let ghost views = path_views(paths@);
    assert(views[path as int] == paths@[path as int]@);
    path == paths.len() - 1 && complete(&paths[path].segments, bits, name)
}

/// The segments that may be matched next, from the first to the last.
fn live_segments(bits: &SegBits) -> (r: Vec<usize>)
    requires
        bits@.len() < usize::MAX,
    ensures
        forall|i: int|
            0 <= i < r@.len() ==> #[trigger] r@[i] <= bits@.len() && is_live(bits@, r@[i] as int),
        forall|j: usize| j <= bits@.len() && is_live(bits@, j as int) ==> r@.contains(j),
{
    let ones = bits.ones();
    let mut r: Vec<usize> = Vec::new();
    r.push(0);
    let mut k: usize = 0;
    while k < ones.len()
        invariant
            bits@.len() < usize::MAX,
            k <= ones@.len(),
            r@.len() == k + 1,
            r@[0] == 0,
            forall|i: int|
                0 <= i < ones@.len() ==> #[trigger] ones@[i] < bits@.len() && bits@[ones@[i] as int],
            forall|i: int| 0 <= i < k ==> #[trigger] r@[i + 1] == ones@[i] + 1,
            forall|i: int|
                0 <= i < r@.len() ==> #[trigger] r@[i] <= bits@.len() && is_live(
                    bits@,
                    r@[i] as int,
                ),
        decreases ones@.len() - k,
    {
        r.push(ones[k] + 1);
        k += 1;
    }
    proof {
        assert forall|j: usize| j <= bits@.len() && is_live(bits@, j as int) implies r@.contains(
            j,
        ) by {
            if j == 0 {
                assert(r@[0] == j);
            } else {
                assert(ones@.contains((j - 1) as usize));
                let i = choose|i: int| 0 <= i < ones@.len() && ones@[i] == (j - 1) as usize;
                assert(r@[i + 1] == j);
            }
        }
    }
    r
}

/// The progress in a directory of that name.
pub fn advance(paths: &Vec<FixedPath>, path: usize, bits: &SegBits, name: &Vec<u8>) -> (r: (
    usize,
    SegBits,
))
    requires
        no_empty(path_views(paths@)),
        allowed(path_views(paths@), (Progress { path: path as nat, bits: bits@ })),
        forall|i: int|
            0 <= i < path_views(paths@).len() ==> (#[trigger] path_views(paths@)[i]).len()
                <= usize::MAX / 8,
    ensures
        (Progress { path: r.0 as nat, bits: r.1@ }) == advanced(
            path_views(paths@),
            (Progress { path: path as nat, bits: bits@ }),
            name@,
        ),
{
    let ghost views = path_views(paths@);
    let ghost segs = views[path as int];
    let ghost p = Progress { path: path as nat, bits: bits@ };
    assert(segs == paths@[path as int]@);
    let segments = &paths[path].segments;
    let n = segments.len();
    let mut new_bits = SegBits::zeros(n - 1);
    let live = live_segments(bits);
    let mut k: usize = 0;
    while k < live.len()
        invariant
            views == path_views(paths@),
            path < paths@.len(),
            segs == views[path as int],
            segs == paths@[path as int]@,
            segments@ == paths@[path as int].segments@,
            n == segments@.len() == segs.len(),
            n > 0,
            no_empty(views),
            p == (Progress { path: path as nat, bits: bits@ }),
            bits@.len() == n - 1,
            new_bits@.len() == n - 1,
            forall|i: int| 0 <= i < views.len() ==> (#[trigger] views[i]).len() <= usize::MAX / 8,
            forall|i: int|
                0 <= i < live@.len() ==> #[trigger] live@[i] < n && is_live(
                    bits@,
                    live@[i] as int,
                ),
            k <= live@.len(),
            forall|j: int|
                0 <= j < n - 1 ==> (#[trigger] new_bits@[j] <==> live@.take(k as int).contains(
                    j as usize,
                ) && text_matches(segs[j], name@)),
            path + 1 < paths@.len() && live@.take(k as int).contains((n - 1) as usize)
                ==> !text_matches(segs[n - 1], name@),
        decreases live@.len() - k,
    {
        let ghost before = new_bits@;
        let ghost seen = live@.take(k as int);
        let ghost more = live@.take(k + 1);
        let index = live[k];
        proof {
            assert(segs[index as int] == segments@[index as int]@);
            assert forall|j: usize| #[trigger] more.contains(j) == (seen.contains(j) || j == index) by {
                if seen.contains(j) {
                    let i = choose|i: int| 0 <= i < seen.len() && seen[i] == j;
                    assert(more[i] == j);
                }
                if more.contains(j) && j != index {
                    let i = choose|i: int| 0 <= i < more.len() && more[i] == j;
                    assert(seen[i] == j);
                }
                assert(more[k as int] == index);
            }
        }
        if segments[index].match_text(name) {
            if index < new_bits.len() {
                new_bits.set(index);
            } else if path < paths.len() - 1 {
                proof {
                    assert(segs.last() == segs[n - 1]);
                    assert(views[path + 1] == paths@[path + 1]@);
                    assert(views[path + 1].len() > 0);
                }
                return (path + 1, SegBits::zeros(paths[path + 1].segments.len() - 1));
            }
        }
        proof {
            assert forall|j: int| 0 <= j < n - 1 implies (#[trigger] new_bits@[j] <==> more.contains(
                j as usize,
            ) && text_matches(segs[j], name@)) by {
                assert((j as usize) as int == j);
                assert(before[j] <==> seen.contains(j as usize) && text_matches(segs[j], name@));
                if j != index {
                    assert(new_bits@[j] == before[j]);
                }
            }
        }
        k += 1;
    }
    proof {
        assert(live@.take(k as int) == live@);
        assert forall|j: int| 0 <= j < n implies live@.contains(j as usize) == is_live(
            bits@,
            j,
        ) by {
            assert((j as usize) as int == j);
        }
        assert(segs.last() == segs[n - 1]);
        assert(new_bits@ =~= advanced(views, p, name@).bits);
    }
    (path, new_bits)
}

/// Each of the paths matches all of the names that are its own: as many as it has segments, and each of
/// them its segment.
pub open spec fn are_parts(paths: Seq<Seq<SegmentView>>, parts: Seq<Seq<Seq<u8>>>) -> bool {
    &&& parts.len() == paths.len()
    &&& forall|i: int|
        0 <= i < paths.len() ==> (#[trigger] parts[i]).len() == paths[i].len()
    &&& forall|i: int, j: int|
        0 <= i < paths.len() && 0 <= j < paths[i].len() ==> text_matches(
            paths[i][j],
            #[trigger] parts[i][j],
        )
}

proof fn lemma_weave(paths: Seq<Seq<SegmentView>>, gaps: Seq<Seq<Seq<u8>>>, parts: Seq<Seq<Seq<u8>>>)
    requires
        paths.len() > 0,
        gaps.len() == paths.len(),
        are_parts(paths, parts),
    ensures
        floats(paths, woven(gaps, parts)),
    decreases paths.len(),
{
    let names = woven(gaps, parts);
    let k = gaps[0].len() as int;
    let n = paths[0].len() as int;
    let more = woven(gaps.skip(1), parts.skip(1));
    assert(parts[0].len() == n);
    assert(names =~= gaps[0] + parts[0] + more);
    let rest = names.skip(k);
    assert(rest =~= parts[0] + more);
    assert(rest.take(n) =~= parts[0]);
    assert forall|j: int| 0 <= j < n implies text_matches(
        #[trigger] paths[0][j],
        #[trigger] parts[0][j],
    ) by {}
    assert(fits(paths[0], rest.take(n)));
    if paths.len() == 1 {
        assert(more.len() == 0);
    } else {
        assert forall|i: int| 0 <= i < paths.skip(1).len() implies (#[trigger] parts.skip(1)[i]).len()
            == paths.skip(1)[i].len() by {
            assert(parts[i + 1].len() == paths[i + 1].len());
        }
        assert forall|i: int, j: int|
            0 <= i < paths.skip(1).len() && 0 <= j < paths.skip(1)[i].len() implies text_matches(
            paths.skip(1)[i][j],
            #[trigger] parts.skip(1)[i][j],
        ) by {
            assert(text_matches(paths[i + 1][j], parts[i + 1][j]));
        }
        lemma_weave(paths.skip(1), gaps.skip(1), parts.skip(1));
        assert(rest.skip(n) =~= more);
    }
}

proof fn lemma_unweave(paths: Seq<Seq<SegmentView>>, names: Seq<Seq<u8>>) -> (r: (
    Seq<Seq<Seq<u8>>>,
    Seq<Seq<Seq<u8>>>,
))
    requires
        floats(paths, names),
    ensures
        r.0.len() == paths.len(),
        are_parts(paths, r.1),
        names == woven(r.0, r.1),
    decreases paths.len(),
{
    let n = paths[0].len() as int;
    let k = choose|k: int|
        0 <= k <= names.len() && {
            let rest = #[trigger] names.skip(k);
            &&& rest.len() >= n
            &&& fits(paths[0], rest.take(n))
            &&& if paths.len() == 1 {
                rest.len() == n
            } else {
                floats(paths.skip(1), rest.skip(n))
            }
        };
    let rest = names.skip(k);
    let own = rest.take(n);
    assert forall|j: int| 0 <= j < n implies text_matches(paths[0][j], #[trigger] own[j]) by {
        assert(text_matches(paths[0][j], own[j]));
    }
    let (more_gaps, more) = if paths.len() == 1 {
        (Seq::<Seq<Seq<u8>>>::empty(), Seq::<Seq<Seq<u8>>>::empty())
    } else {
        lemma_unweave(paths.skip(1), rest.skip(n))
    };
    let gaps = seq![names.take(k)] + more_gaps;
    let parts = seq![own] + more;
    assert(gaps.skip(1) =~= more_gaps);
    assert(parts.skip(1) =~= more);
    assert forall|i: int| 0 <= i < paths.len() implies (#[trigger] parts[i]).len() == paths[i].len() by {
        if i > 0 {
            assert(more[i - 1].len() == paths.skip(1)[i - 1].len());
        }
    }
    assert forall|i: int, j: int| 0 <= i < paths.len() && 0 <= j < paths[i].len() implies text_matches(
        paths[i][j],
        #[trigger] parts[i][j],
    ) by {
        if i > 0 {
            assert(text_matches(paths.skip(1)[i - 1][j], more[i - 1][j]));
        }
    }
    assert(names =~= names.take(k) + own + rest.skip(n));
    if paths.len() == 1 {
        assert(rest.skip(n) =~= woven(more_gaps, more));
    }
    (gaps, parts)
}

/// A path matches a glob exactly if it is made of a name for each segment of the base path and then, for
/// each path behind a `**` in turn, any directories, none included, and a name for each of its segments,
/// with nothing behind the last.
pub proof fn law_trees(glob: GlobView, names: Seq<Seq<u8>>)
    ensures
        path_matches(glob, names) <==> exists|
            head: Seq<Seq<u8>>,
            gaps: Seq<Seq<Seq<u8>>>,
            parts: Seq<Seq<Seq<u8>>>,
        |
            #[trigger] are_parts(seq![glob.base], seq![head]) && are_parts(glob.floating, parts)
                && gaps.len() == parts.len() && names == head + #[trigger] woven(gaps, parts),
{
    let n = glob.base.len() as int;
    if path_matches(glob, names) {
        let head = names.take(n);
        assert(fits(glob.base, head)) by {
            if glob.floating.len() == 0 {
                assert(head =~= names);
            }
        }
        assert forall|j: int| 0 <= j < n implies text_matches(glob.base[j], #[trigger] head[j]) by {
            assert(text_matches(glob.base[j], head[j]));
        }
        assert forall|i: int, j: int|
            0 <= i < seq![glob.base].len() && 0 <= j < seq![glob.base][i].len() implies text_matches(
            seq![glob.base][i][j],
            #[trigger] seq![head][i][j],
        ) by {
            assert(text_matches(glob.base[j], head[j]));
        }
        assert(are_parts(seq![glob.base], seq![head]));
        if glob.floating.len() == 0 {
            let none = Seq::<Seq<Seq<u8>>>::empty();
            assert(names =~= head + woven(none, none));
        } else {
            let (gaps, parts) = lemma_unweave(glob.floating, names.skip(n));
            assert(names =~= head + names.skip(n));
            assert(names == head + woven(gaps, parts));
        }
    }
    if exists|head: Seq<Seq<u8>>, gaps: Seq<Seq<Seq<u8>>>, parts: Seq<Seq<Seq<u8>>>|
        #[trigger] are_parts(seq![glob.base], seq![head]) && are_parts(glob.floating, parts)
            && gaps.len() == parts.len() && names == head + #[trigger] woven(gaps, parts) {
        let (head, gaps, parts) = choose|
            head: Seq<Seq<u8>>,
            gaps: Seq<Seq<Seq<u8>>>,
            parts: Seq<Seq<Seq<u8>>>,
        |
            #[trigger] are_parts(seq![glob.base], seq![head]) && are_parts(glob.floating, parts)
                && gaps.len() == parts.len() && names == head + #[trigger] woven(gaps, parts);
        assert(seq![head][0].len() == seq![glob.base][0].len());
        assert forall|j: int| 0 <= j < n implies text_matches(
            #[trigger] glob.base[j],
            #[trigger] head[j],
        ) by {
            assert(text_matches(seq![glob.base][0][j], seq![head][0][j]));
        }
        assert(names.take(n) =~= head);
        assert(names.skip(n) =~= woven(gaps, parts));
        if glob.floating.len() == 0 {
            assert(woven(gaps, parts).len() == 0);
            assert(names =~= head);
        } else {
            lemma_weave(glob.floating, gaps, parts);
        }
    }
}

} // verus!
