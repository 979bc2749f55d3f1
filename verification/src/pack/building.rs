//! Building a pack: going through its directories and saying what is to be done.
//!
//! A build does not touch the file system. It says what is to be done next, and is told when it is.
use crate::cli::Features;
use crate::file::{FileId, FileType};
use crate::order::{
    first_twin, is_first_twin, keys, lemma_map_multiset, lemma_name_key, lemma_name_le_total,
    lemma_twins_same, name_key, name_le, name_order, no_twins, path_le, sort, Order, Sorted,
};
use crate::source::{is_skip, kind_of, map_file_ext, mapped_name, skips, source_kind, SourceKind};
use crate::text::{copied, copied_list, reversed, seqs};
use vstd::prelude::*;

verus! {

/// An entry of a directory, with the name of what it is built into.
#[verifier::ext_equal]
pub struct EntryView {
    pub source: Seq<u8>,
    pub name: Seq<u8>,
    pub ty: FileType,
}

/// A directory that is being built, with the entries that are left of it.
#[verifier::ext_equal]
pub struct DirView {
    pub dir: Seq<Seq<u8>>,
    pub id: FileId,
    pub entries: Seq<EntryView>,
}

/// A directory that is to be built.
#[verifier::ext_equal]
pub struct OpeningView {
    pub dir: Seq<Seq<u8>>,
    pub name: Seq<u8>,
    pub entries: Seq<EntryView>,
}

/// The state of a build. All paths start at the pack's directory.
#[verifier::ext_equal]
pub struct BuildView {
    pub features: Features,
    /// Whether the pack's own directory has been read.
    pub started: bool,
    /// The directory to go down to.
    pub opening: Option<OpeningView>,
    /// The directory that is being built, behind those that it is in.
    pub dirs: Seq<DirView>,
}

/// What is to be done next.
#[verifier::ext_equal]
pub enum TaskView {
    /// Read a directory.
    Read(Seq<Seq<u8>>),
    /// Open a directory, to be built under a name.
    Open(Seq<Seq<u8>>, Seq<u8>),
    /// Build a file, as what it is, under a name.
    File(Seq<Seq<u8>>, Seq<u8>, SourceKind),
    /// Close a directory that has been built.
    Close(Seq<Seq<u8>>),
    /// Nothing more.
    Done,
}

/// The state in which a build starts.
pub open spec fn started(features: Features) -> BuildView {
    BuildView { features, started: false, opening: None, dirs: seq![] }
}

/// What is to be done next.
pub open spec fn task(s: BuildView) -> TaskView {
    match s.opening {
        Some(o) => TaskView::Open(o.dir, o.name),
        None => if !s.started {
            TaskView::Read(seq![])
        } else if s.dirs.len() == 0 {
            TaskView::Done
        } else {
            let top = s.dirs.last();
            if top.entries.len() == 0 {
                TaskView::Close(top.dir)
            } else {
                let e = top.entries[0];
                match e.ty {
                    FileType::Dir => TaskView::Read(top.dir.push(e.source)),
                    FileType::File => TaskView::File(
                        top.dir.push(e.source),
                        e.name,
                        kind_of(s.features, e.source),
                    ),
                }
            }
        },
    }
}

/// What an entry of a directory is built into.
pub open spec fn entry_of(features: Features, source: Seq<u8>, ty: FileType) -> EntryView {
    EntryView {
        source,
        name: match ty {
            FileType::Dir => source,
            FileType::File => mapped_name(features, source),
        },
        ty,
    }
}

/// The entries of a directory, as they are read.
pub open spec fn listed(features: Features, entries: Seq<(Seq<u8>, FileType)>) -> Seq<EntryView> {
    entries.map_values(|e: (Seq<u8>, FileType)| entry_of(features, e.0, e.1))
}

/// The key that each entry is sorted by.
pub open spec fn entry_keys(entries: Seq<EntryView>) -> Seq<Seq<Seq<u8>>> {
    entries.map_values(|e: EntryView| name_key(e.name))
}

/// The entries in the order of their names.
pub open spec fn entries_sorted(sorted: Seq<EntryView>, entries: Seq<EntryView>) -> bool {
    &&& sorted.to_multiset() == entries.to_multiset()
    &&& forall|i: int, j: int|
        0 <= i <= j < sorted.len() ==> name_le(
            (#[trigger] sorted[i]).name,
            (#[trigger] sorted[j]).name,
        )
}

/// A directory with such entries is left out.
pub open spec fn has_skip(entries: Seq<EntryView>) -> bool {
    exists|i: int| 0 <= i < entries.len() && is_skip((#[trigger] entries[i]).name)
}

impl BuildView {
    /// The states that builds are in.
    pub open spec fn valid(self) -> bool {
        self.dirs.len() > 0 || self.opening is Some ==> self.started
    }

    /// The state without the next entry of the directory that is being built.
    pub open spec fn without_next(self) -> BuildView {
        if self.dirs.len() == 0 {
            self
        } else {
            let top = self.dirs.last();
            BuildView {
                dirs: self.dirs.drop_last().push(DirView { entries: top.entries.skip(1), ..top }),
                ..self
            }
        }
    }

    /// The name that the next directory is built under.
    pub open spec fn next_name(self) -> Seq<u8> {
        if self.dirs.len() == 0 {
            seq![]
        } else {
            self.dirs.last().entries[0].name
        }
    }
}

/// The next state once a directory has been read. One that is marked to be left out is, whatever else
/// is in it. In any other, no two entries have the same name.
pub open spec fn after_read(s: BuildView, entries: Seq<(Seq<u8>, FileType)>, t: BuildView) -> bool {
    let all = listed(s.features, entries);
    let rest = BuildView { started: true, ..s.without_next() };
    if has_skip(all) {
        t == rest
    } else {
        &&& no_twins(entry_keys(all))
        &&& t.opening matches Some(o)
        &&& task(s) == TaskView::Read(o.dir)
        &&& o.name == s.next_name()
        &&& entries_sorted(o.entries, all)
        &&& t == (BuildView { opening: t.opening, ..rest })
    }
}

/// A directory of that id is being built.
pub open spec fn has_id(dirs: Seq<DirView>, id: FileId) -> bool {
    exists|i: int| 0 <= i < dirs.len() && (#[trigger] dirs[i]).id == id
}

/// The state once a directory of that id has been opened. It is an error if the directory is also one
/// of those that it is in.
pub open spec fn after_open(s: BuildView, id: FileId) -> Result<BuildView, Seq<Seq<u8>>> {
    let o = s.opening->0;
    if has_id(s.dirs, id) {
        Err(o.dir)
    } else {
        let dir = DirView { dir: o.dir, id, entries: o.entries };
        Ok(BuildView { opening: None, dirs: s.dirs.push(dir), ..s })
    }
}

/// The state once a directory has been closed.
pub open spec fn after_close(s: BuildView) -> BuildView {
    BuildView { dirs: s.dirs.drop_last(), ..s }
}

/// An entry of a directory.
#[derive(Debug)]
struct DirEntry {
    source: Vec<u8>,
    name: Vec<u8>,
    ty: FileType,
}

impl View for DirEntry {
    type V = EntryView;

    closed spec fn view(&self) -> EntryView {
        EntryView { source: self.source@, name: self.name@, ty: self.ty }
    }
}

impl Sorted for DirEntry {
    closed spec fn key(&self) -> Seq<Seq<u8>> {
        name_key(self.name@)
    }

    fn may_precede(&self, other: &Self) -> (r: bool) {
        proof {
            lemma_name_key(self.name@, other.name@);
            lemma_name_le_total(self.name@, other.name@);
        }
        match name_order(&self.name, &other.name) {
            Order::After => false,
            _ => true,
        }
    }
}

/// What each of a list of entries holds.
spec fn entry_views(v: Seq<DirEntry>) -> Seq<EntryView> {
    v.map_values(|e: DirEntry| e@)
}

/// A directory that is being built. The entries are kept in reverse.
#[derive(Debug)]
struct BuildDir {
    dir: Vec<Vec<u8>>,
    id: FileId,
    entries: Vec<DirEntry>,
}

impl View for BuildDir {
    type V = DirView;

    closed spec fn view(&self) -> DirView {
        DirView { dir: seqs(self.dir@), id: self.id, entries: entry_views(self.entries@).reverse() }
    }
}

/// A directory that is to be built. The entries are kept in reverse.
#[derive(Debug)]
struct Opening {
    dir: Vec<Vec<u8>>,
    name: Vec<u8>,
    entries: Vec<DirEntry>,
}

impl View for Opening {
    type V = OpeningView;

    closed spec fn view(&self) -> OpeningView {
        OpeningView {
            dir: seqs(self.dir@),
            name: self.name@,
            entries: entry_views(self.entries@).reverse(),
        }
    }
}

/// A pack that is being built.
#[derive(Debug)]
pub struct Build {
    features: Features,
    started: bool,
    opening: Option<Opening>,
    dirs: Vec<BuildDir>,
}

impl View for Build {
    type V = BuildView;

    closed spec fn view(&self) -> BuildView {
        BuildView {
            features: self.features,
            started: self.started,
            opening: match self.opening {
                Some(o) => Some(o@),
                None => None,
            },
            dirs: self.dirs@.map_values(|d: BuildDir| d@),
        }
    }
}

/// What is to be done next.
#[derive(Debug)]
pub enum Task {
    /// Read a directory, for [`Build::read`].
    Read(Vec<Vec<u8>>),
    /// Open a directory, to be built under a name, for [`Build::opened`].
    Open(Vec<Vec<u8>>, Vec<u8>),
    /// Build a file, as what it is, under a name, for [`Build::filed`].
    File(Vec<Vec<u8>>, Vec<u8>, SourceKind),
    /// Close a directory that has been built, for [`Build::closed`].
    Close(Vec<Vec<u8>>),
    /// Nothing more.
    Done,
}

impl View for Task {
    type V = TaskView;

    open spec fn view(&self) -> TaskView {
        match self {
            Task::Read(dir) => TaskView::Read(seqs(dir@)),
            Task::Open(dir, name) => TaskView::Open(seqs(dir@), name@),
            Task::File(path, name, kind) => TaskView::File(seqs(path@), name@, *kind),
            Task::Close(dir) => TaskView::Close(seqs(dir@)),
            Task::Done => TaskView::Done,
        }
    }
}

/// Why a pack cannot be built.
#[derive(Debug)]
pub enum BuildError {
    /// Two entries of a directory are built into the same name.
    DuplicateNames(Vec<u8>),
    /// A directory is also one of those that it is in.
    SymlinkLoop(Vec<Vec<u8>>),
}

/// The names and types in a directory.
pub open spec fn entry_pairs(v: Seq<(Vec<u8>, FileType)>) -> Seq<(Seq<u8>, FileType)> {
    v.map_values(|e: (Vec<u8>, FileType)| (e.0@, e.1))
}

/// Starts to build a pack.
pub fn build_pack(features: Features) -> (r: Build)
    ensures
        r@ == started(features),
        r@.valid(),
{
    let r = Build { features, started: false, opening: None, dirs: Vec::new() };
    assert(r@.dirs =~= seq![]);
    r
}

/// What the entries of a directory are built into, in no particular order.
fn list_entries(features: Features, entries: Vec<(Vec<u8>, FileType)>) -> (r: Vec<DirEntry>)
    ensures
        entry_views(r@) == listed(features, entry_pairs(entries@)),
{
    let ghost all = entries@;
    let ghost target = listed(features, entry_pairs(all));
    let mut r: Vec<DirEntry> = Vec::new();
    assert(entry_views(r@) =~= target.take(0));
    for e in it: entries
        invariant
            it.seq() == all,
            target == listed(features, entry_pairs(all)),
            entry_views(r@) == target.take(it.index() as int),
    {
        let ghost before = entry_views(r@);
        let ghost i = it.index() as int;
        let (source, ty) = e;
        let name = match ty {
            FileType::Dir => copied(&source, 0, source.len()),
            FileType::File => map_file_ext(features, &source),
        };
        proof {
            if ty is Dir {
                assert(name@ =~= source@);
            }
        }
        let entry = DirEntry { source, name, ty };
        r.push(entry);
        proof {
            assert(entry@ =~= target[i]);
            assert(entry_views(r@) =~= before.push(target[i]));
            assert(target.take(i + 1) =~= target.take(i).push(target[i]));
        }
    }
    assert(target.take(target.len() as int) =~= target);
    r
}

/// Whether a directory with such entries is left out.
fn any_skip(entries: &Vec<DirEntry>) -> (r: bool)
    ensures
        r == has_skip(entry_views(entries@)),
{
    let mut i: usize = 0;
    while i < entries.len()
        invariant
            i <= entries@.len(),
            forall|j: int| 0 <= j < i ==> !is_skip((#[trigger] entry_views(entries@)[j]).name),
        decreases entries@.len() - i,
    {
        assert(entry_views(entries@)[i as int] == entries@[i as int]@);
        if skips(&entries[i].name) {
            return true;
        }
        i += 1;
    }
    false
}

/// A path with one more name.
fn joined_path(dir: &Vec<Vec<u8>>, name: &Vec<u8>) -> (r: Vec<Vec<u8>>)
    ensures
        seqs(r@) == seqs(dir@).push(name@),
{
    let mut r = copied_list(dir);
    let ghost before = seqs(r@);
    let copy = copied(name, 0, name.len());
    assert(copy@ =~= name@);
    r.push(copy);
    assert(seqs(r@) =~= before.push(name@));
    r
}

impl Build {
    /// What is to be done next.
    pub fn task(&self) -> (r: Task)
        ensures
            r@ == task(self@),
    {
        if let Some(o) = &self.opening {
            let name = copied(&o.name, 0, o.name.len());
            assert(name@ =~= o.name@);
            return Task::Open(copied_list(&o.dir), name);
        }
        if !self.started {
            let dir: Vec<Vec<u8>> = Vec::new();
            assert(seqs(dir@) =~= seq![]);
            return Task::Read(dir);
        }
        if self.dirs.len() == 0 {
            return Task::Done;
        }
        let top = &self.dirs[self.dirs.len() - 1];
        assert(self@.dirs.last() == top@);
        if top.entries.len() == 0 {
            return Task::Close(copied_list(&top.dir));
        }
        let e = &top.entries[top.entries.len() - 1];
        assert(top@.entries[0] == e@);
        let path = joined_path(&top.dir, &e.source);
        match e.ty {
            FileType::Dir => Task::Read(path),
            FileType::File => {
                let name = copied(&e.name, 0, e.name.len());
                assert(name@ =~= e.name@);
                Task::File(path, name, source_kind(self.features, &e.source))
            },
        }
    }

    /// Takes the next entry of the directory that is being built.
    fn take_next(&mut self) -> (r: Option<DirEntry>)
        requires
            old(self)@.dirs.len() > 0 ==> old(self)@.dirs.last().entries.len() > 0,
        ensures
            final(self)@ == old(self)@.without_next(),
            match r {
                Some(e) => old(self)@.dirs.len() > 0 && e@ == old(self)@.dirs.last().entries[0],
                None => old(self)@.dirs.len() == 0,
            },
    {
        let ghost s = self@;
        match self.dirs.pop() {
            None => None,
            Some(mut top) => {
                let ghost view = top@;
                assert(s.dirs.last() == view);
                let e = top.entries.pop();
                self.dirs.push(top);
                proof {
                    assert(top@.entries =~= view.entries.skip(1));
                    assert(self@.dirs =~= s.dirs.drop_last().push(top@));
                    assert(self@ =~= s.without_next());
                }
                e
            },
        }
    }

    /// The names of the directory that is to be read next.
    fn next_dir(&self) -> (r: Vec<Vec<u8>>)
        requires
            task(self@) is Read,
        ensures
            task(self@) == TaskView::Read(seqs(r@)),
    {
        match self.task() {
            Task::Read(dir) => dir,
            _ => Vec::new(),
        }
    }

    /// Says what is in the directory that was to be read. A directory that is marked to be left out is.
    /// In any other, no two entries may be built into the same name.
    pub fn read(&mut self, entries: Vec<(Vec<u8>, FileType)>) -> (r: Result<(), BuildError>)
        requires
            task(old(self)@) is Read,
            old(self)@.valid(),
        ensures
            final(self)@.valid(),
            match r {
                Ok(()) => after_read(old(self)@, entry_pairs(entries@), final(self)@),
                Err(BuildError::DuplicateNames(name)) => {
                    let all = listed(old(self)@.features, entry_pairs(entries@));
                    &&& !has_skip(all)
                    &&& is_first_twin(entry_keys(all), name_key(name@))
                    &&& final(self)@ == old(self)@
                },
                Err(_) => false,
            },
    {
        let ghost s = self@;
        let ghost pairs = entry_pairs(entries@);
        let ghost all = listed(s.features, pairs);
        let dir = self.next_dir();
        let entries = list_entries(self.features, entries);
        if any_skip(&entries) {
            self.started = true;
            let _ = self.take_next();
            return Ok(());
        }
        let ghost unsorted = entries@;
        let entries = sort(entries);
        proof {
            assert(keys(unsorted) =~= entry_keys(all));
            lemma_twins_same(keys(entries@), keys(unsorted));
            lemma_map_multiset(entries@, unsorted, |e: DirEntry| e@);
        }
        if let Some(i) = first_twin(&entries) {
            let name = copied(&entries[i].name, 0, entries[i].name.len());
            assert(name@ =~= entries@[i as int].name@);
            return Err(BuildError::DuplicateNames(name));
        }
        self.started = true;
        let name = match self.take_next() {
            Some(e) => e.name,
            None => {
                let none: Vec<u8> = Vec::new();
                assert(none@ =~= seq![]);
                none
            },
        };
        let ghost sorted = entry_views(entries@);
        proof {
            assert forall|i: int, j: int| 0 <= i <= j < sorted.len() implies name_le(
                (#[trigger] sorted[i]).name,
                (#[trigger] sorted[j]).name,
            ) by {
                assert(path_le(entries@[i].key(), entries@[j].key()));
                lemma_name_key(entries@[i].name@, entries@[j].name@);
            }
        }
        let entries = reversed(entries);
        let o = Opening { dir, name, entries };
        assert(o@.entries =~= sorted);
        self.opening = Some(o);
        Ok(())
    }

    /// Says that the directory that was to be opened has been, and has this id. A directory may not be
    /// one of those that it is in.
    pub fn opened(&mut self, id: FileId) -> (r: Result<(), BuildError>)
        requires
            task(old(self)@) is Open,
            old(self)@.valid(),
        ensures
            final(self)@.valid(),
            match after_open(old(self)@, id) {
                Ok(s) => r is Ok && final(self)@ == s,
                Err(dir) => {
                    &&& r matches Err(BuildError::SymlinkLoop(d))
                    &&& seqs(d@) == dir
                    &&& final(self)@ == old(self)@
                },
            },
    {
        let ghost s = self@;
        if self.builds(id) {
            if let Some(o) = &self.opening {
                return Err(BuildError::SymlinkLoop(copied_list(&o.dir)));
            }
        }
        if let Some(o) = self.opening.take() {
            let dir = BuildDir { dir: o.dir, id, entries: o.entries };
            self.dirs.push(dir);
            assert(self@.dirs =~= s.dirs.push(dir@));
        }
        Ok(())
    }

    fn builds(&self, id: FileId) -> (r: bool)
        ensures
            r == has_id(self@.dirs, id),
    {
        let mut i: usize = 0;
        while i < self.dirs.len()
            invariant
                i <= self.dirs@.len(),
                forall|j: int| 0 <= j < i ==> (#[trigger] self@.dirs[j]).id != id,
            decreases self.dirs@.len() - i,
        {
            assert(self@.dirs[i as int] == self.dirs@[i as int]@);
            if self.dirs[i].id == id {
                return true;
            }
            i += 1;
        }
        false
    }

    /// Says that the file that was to be built has been.
    pub fn filed(&mut self)
        requires
            task(old(self)@) is File,
            old(self)@.valid(),
        ensures
            final(self)@.valid(),
            final(self)@ == old(self)@.without_next(),
    {
        let _ = self.take_next();
    }

    /// Says that the directory that was to be closed has been.
    pub fn closed(&mut self)
        requires
            task(old(self)@) is Close,
            old(self)@.valid(),
        ensures
            final(self)@.valid(),
            final(self)@ == after_close(old(self)@),
    {
        let ghost s = self@;
        let _ = self.dirs.pop();
        assert(self@.dirs =~= s.dirs.drop_last());
    }
}

/// Putting entries into another order makes no difference to whether the directory is left out.
pub proof fn lemma_skip_same(a: Seq<EntryView>, b: Seq<EntryView>)
    requires
        a.to_multiset() == b.to_multiset(),
    ensures
        has_skip(a) == has_skip(b),
        forall|e: EntryView| a.contains(e) == #[trigger] b.contains(e),
{
    broadcast use vstd::seq_lib::group_to_multiset_ensures;

    assert forall|e: EntryView| a.contains(e) == #[trigger] b.contains(e) by {
        assert(a.contains(e) <==> a.to_multiset().count(e) > 0);
        assert(b.contains(e) <==> b.to_multiset().count(e) > 0);
    }
    if has_skip(a) {
        let i = choose|i: int| 0 <= i < a.len() && is_skip((#[trigger] a[i]).name);
        assert(a.contains(a[i]));
        assert(b.contains(a[i]));
        let j = choose|j: int| 0 <= j < b.len() && b[j] == a[i];
        assert(is_skip(b[j].name));
    }
    if has_skip(b) {
        let i = choose|i: int| 0 <= i < b.len() && is_skip((#[trigger] b[i]).name);
        assert(b.contains(b[i]));
        assert(a.contains(b[i]));
        let j = choose|j: int| 0 <= j < a.len() && a[j] == b[i];
        assert(is_skip(a[j].name));
    }
}

} // verus!
