//! A file system that does not change, as a search or a build sees it.
use crate::file::{FileId, FileType};
use vstd::prelude::*;

verus! {

/// A file system, seen from the directory where a search or a build starts.
pub struct World {
    /// The names in a directory.
    pub names: spec_fn(Seq<Seq<u8>>) -> Seq<Seq<u8>>,
    /// The type of a file.
    pub kind: spec_fn(Seq<Seq<u8>>) -> FileType,
    /// The id of a directory.
    pub id: spec_fn(Seq<Seq<u8>>) -> FileId,
}

impl World {
    /// The path leads through directories, each of which has the next name in it.
    pub open spec fn is_dir(self, path: Seq<Seq<u8>>) -> bool {
        forall|i: int|
            0 <= i < path.len() ==> (self.names)(path.take(i)).contains(#[trigger] path[i]) && (
            self.kind)(path.take(i + 1)) is Dir
    }

    /// The path leads to a regular file.
    pub open spec fn is_file(self, path: Seq<Seq<u8>>) -> bool {
        &&& path.len() > 0
        &&& self.is_dir(path.drop_last())
        &&& (self.names)(path.drop_last()).contains(path.last())
        &&& (self.kind)(path) is File
    }

    /// The directory is also one of those that it is in.
    pub open spec fn is_loop(self, dir: Seq<Seq<u8>>) -> bool {
        exists|above: Seq<Seq<u8>>| #[trigger]
            is_below(dir, above) && (self.id)(above) == (self.id)(dir)
    }
}

/// The path is below the directory.
pub open spec fn is_below(path: Seq<Seq<u8>>, dir: Seq<Seq<u8>>) -> bool {
    path.len() > dir.len() && path.take(dir.len() as int) == dir
}

pub proof fn lemma_below_push(path: Seq<Seq<u8>>, dir: Seq<Seq<u8>>)
    requires
        is_below(path, dir),
    ensures
        path.take(dir.len() as int + 1) == dir.push(path[dir.len() as int]),
{
    assert(path.take(dir.len() as int + 1) =~= path.take(dir.len() as int).push(path[dir.len() as int]));
}

pub proof fn lemma_below_further(path: Seq<Seq<u8>>, dir: Seq<Seq<u8>>, above: Seq<Seq<u8>>)
    requires
        is_below(path, dir),
        is_below(dir, above),
    ensures
        is_below(path, above),
{
    assert(path.take(above.len() as int) =~= dir.take(above.len() as int));
}

/// A file's path goes on from the entry that it leads to, if that is a directory, and ends there if it
/// is a file.
pub proof fn lemma_file_below(w: World, path: Seq<Seq<u8>>, dir: Seq<Seq<u8>>)
    requires
        w.is_file(path),
        is_below(path, dir),
    ensures
        (w.names)(dir).contains(path[dir.len() as int]),
        (w.kind)(dir.push(path[dir.len() as int])) is File ==> path == dir.push(
            path[dir.len() as int],
        ),
        (w.kind)(dir.push(path[dir.len() as int])) is Dir ==> is_below(
            path,
            dir.push(path[dir.len() as int]),
        ),
{
    let n = dir.len() as int;
    lemma_below_push(path, dir);
    let above = path.drop_last();
    if n + 1 == path.len() {
        assert(path.take(n + 1) == path);
        assert(above =~= dir);
    } else {
        assert(above[n] == path[n]);
        assert(above.take(n) =~= dir);
        assert(above.take(n + 1) =~= path.take(n + 1));
    }
}

/// A directory's path goes on from the entry that it leads to, which is a directory, or ends there.
pub proof fn lemma_dir_below(w: World, path: Seq<Seq<u8>>, dir: Seq<Seq<u8>>)
    requires
        w.is_dir(path),
        is_below(path, dir),
    ensures
        (w.names)(dir).contains(path[dir.len() as int]),
        (w.kind)(dir.push(path[dir.len() as int])) is Dir,
        path == dir.push(path[dir.len() as int]) || is_below(path, dir.push(path[dir.len() as int])),
{
    let n = dir.len() as int;
    lemma_below_push(path, dir);
    assert((w.names)(path.take(n)).contains(path[n]));
    if n + 1 == path.len() {
        assert(path.take(n + 1) =~= path);
    }
}

pub proof fn lemma_dir_push(w: World, dir: Seq<Seq<u8>>, name: Seq<u8>)
    requires
        w.is_dir(dir),
        (w.names)(dir).contains(name),
        (w.kind)(dir.push(name)) is Dir,
    ensures
        w.is_dir(dir.push(name)),
{
    let path = dir.push(name);
    assert forall|i: int| 0 <= i < path.len() implies (w.names)(path.take(i)).contains(
        #[trigger] path[i],
    ) && (w.kind)(path.take(i + 1)) is Dir by {
        assert(path.take(dir.len() as int) =~= dir);
        assert(path.take(dir.len() as int + 1) =~= path);
        if i < dir.len() {
            assert(dir[i] == path[i]);
            assert(dir.take(i) =~= path.take(i));
            assert(dir.take(i + 1) =~= path.take(i + 1));
        }
    }
}

pub proof fn lemma_file_push(w: World, dir: Seq<Seq<u8>>, name: Seq<u8>)
    requires
        w.is_dir(dir),
        (w.names)(dir).contains(name),
        (w.kind)(dir.push(name)) is File,
    ensures
        w.is_file(dir.push(name)),
{
    assert(dir.push(name).drop_last() =~= dir);
}

} // verus!
