//! Searching directories for the files that a glob matches.
//!
//! A walk does not touch the file system. It says what it has to know next, and is told.
use crate::file::{FileId, FileType};
use crate::glob::bits::SegBits;
use crate::glob::lex::GlobError;
use crate::glob::matching::text_matches;
use crate::glob::parse::{parse, parsed, law_parsed_well_formed, Glob, GlobView};
use crate::glob::paths::{accept, accepted, advance, advanced, allowed, at_start, Progress};
use crate::order::{keys, lemma_path_le_total, path_le, sort, Sorted};
use crate::text::{copied, copied_list, reversed, seqs, seqs2};
use vstd::prelude::*;

verus! {

/// A directory whose entries have to match a segment of the base path, with those of its entries that
/// are known to.
#[verifier::ext_equal]
pub struct BaseView {
    pub dir: Seq<Seq<u8>>,
    pub seg: nat,
    pub names: Seq<Seq<u8>>,
}

/// A directory below the base path, with those of its entries that have not been looked at.
#[verifier::ext_equal]
pub struct FrameView {
    pub dir: Seq<Seq<u8>>,
    pub id: FileId,
    pub progress: Progress,
    pub names: Seq<Seq<u8>>,
}

/// The state of a walk. All paths start at the directory where the match starts.
#[verifier::ext_equal]
pub struct WalkView {
    pub glob: GlobView,
    /// Directories to read for the base path, the next one last.
    pub todo: Seq<BaseView>,
    /// The directory that is matched against the base path.
    pub base: Option<BaseView>,
    /// Directories that the base path led to and that have not been entered.
    pub found: Seq<Seq<Seq<u8>>>,
    /// Such directories that have been entered, the next one to search last.
    pub roots: Seq<FrameView>,
    /// The directory that is searched, behind those that it is in.
    pub stack: Seq<FrameView>,
    /// The directory to go down to, with its progress.
    pub child: Option<(Seq<Seq<u8>>, Progress)>,
    /// The files that match.
    pub matches: Seq<Seq<Seq<u8>>>,
}

/// What a walk has to know next.
#[verifier::ext_equal]
pub enum RequestView {
    /// The names in a directory.
    Read(Seq<Seq<u8>>),
    /// The type of a file.
    Kind(Seq<Seq<u8>>),
    /// The id of a directory and the names in it.
    Enter(Seq<Seq<u8>>),
    /// Nothing more.
    Done,
}

/// The glob that a search is for. A search needs a glob that can match files.
pub open spec fn searched(s: Seq<char>) -> Result<GlobView, GlobError> {
    match parsed(s) {
        Err(e) => Err(e),
        Ok(glob) => if glob.trailing_sep {
            Err(GlobError::TrailingSeparator)
        } else if glob.base.len() == 0 && glob.floating.len() == 0 {
            Err(GlobError::NoSegments)
        } else {
            Ok(glob)
        },
    }
}

/// The state in which a walk starts.
pub open spec fn started(glob: GlobView) -> WalkView {
    let here: Seq<Seq<u8>> = seq![];
    WalkView {
        glob,
        todo: if glob.base.len() > 0 {
            seq![BaseView { dir: here, seg: 0, names: seq![] }]
        } else {
            seq![]
        },
        base: None,
        found: if glob.base.len() > 0 {
            seq![]
        } else {
            seq![here]
        },
        roots: seq![],
        stack: seq![],
        child: None,
        matches: seq![],
    }
}

/// What a walk in this state has to know next.
pub open spec fn requested(s: WalkView) -> RequestView {
    match (s.base, s.child) {
        (Some(b), _) => RequestView::Kind(b.dir.push(b.names[0])),
        (None, Some((dir, _))) => RequestView::Enter(dir),
        (None, None) => if s.todo.len() > 0 {
            RequestView::Read(s.todo.last().dir)
        } else if s.found.len() > 0 {
            RequestView::Enter(s.found[0])
        } else if s.stack.len() > 0 {
            RequestView::Kind(s.stack.last().dir.push(s.stack.last().names[0]))
        } else {
            RequestView::Done
        },
    }
}

/// The names that match a segment.
pub open spec fn matching_names(
    glob: GlobView,
    seg: nat,
    names: Seq<Seq<u8>>,
) -> Seq<Seq<u8>> {
    names.filter(|name: Seq<u8>| text_matches(glob.base[seg as int], name))
}

/// A list of entries is not kept when it is used up.
pub open spec fn if_any(b: BaseView) -> Option<BaseView> {
    if b.names.len() > 0 {
        Some(b)
    } else {
        None
    }
}

/// The state once the names in the requested directory are known.
pub open spec fn after_read(s: WalkView, names: Seq<Seq<u8>>) -> WalkView {
    let next = s.todo.last();
    WalkView {
        todo: s.todo.drop_last(),
        base: if_any(BaseView { names: matching_names(s.glob, next.seg, names), ..next }),
        ..s
    }
}

/// Directories that are used up are left for those that they are in, and then for the next root.
pub open spec fn settled(stack: Seq<FrameView>, roots: Seq<FrameView>) -> (
    Seq<FrameView>,
    Seq<FrameView>,
)
    decreases roots.len(), stack.len(),
{
    if stack.len() > 0 {
        if stack.last().names.len() > 0 {
            (stack, roots)
        } else {
            settled(stack.drop_last(), roots)
        }
    } else if roots.len() > 0 {
        settled(seq![roots.last()], roots.drop_last())
    } else {
        (stack, roots)
    }
}

pub open spec fn settle(s: WalkView) -> WalkView {
    if s.found.len() > 0 {
        s
    } else {
        let (stack, roots) = settled(s.stack, s.roots);
        WalkView { stack, roots, ..s }
    }
}

/// The state once the type of the requested file is known.
pub open spec fn after_kind(s: WalkView, ty: FileType) -> WalkView {
    match s.base {
        Some(b) => {
            let path = b.dir.push(b.names[0]);
            let last = b.seg + 1 == s.glob.base.len();
            let floating = s.glob.floating.len() > 0;
            let base = if_any(BaseView { names: b.names.skip(1), ..b });
            match ty {
                FileType::File => if last && !floating {
                    WalkView { base, matches: s.matches.push(path), ..s }
                } else {
                    WalkView { base, ..s }
                },
                FileType::Dir => if !last {
                    let next = BaseView { dir: path, seg: b.seg + 1, names: seq![] };
                    WalkView { base, todo: s.todo.push(next), ..s }
                } else if floating {
                    WalkView { base, found: s.found.push(path), ..s }
                } else {
                    WalkView { base, ..s }
                },
            }
        },
        None => {
            let f = s.stack.last();
            let name = f.names[0];
            let path = f.dir.push(name);
            let stack = s.stack.drop_last().push(FrameView { names: f.names.skip(1), ..f });
            match ty {
                FileType::File => if accepted(s.glob.floating, f.progress, name) {
                    settle(WalkView { stack, matches: s.matches.push(path), ..s })
                } else {
                    settle(WalkView { stack, ..s })
                },
                FileType::Dir => {
                    let child = (path, advanced(s.glob.floating, f.progress, name));
                    WalkView { stack, child: Some(child), ..s }
                },
            }
        },
    }
}

/// A directory of that id is being searched.
pub open spec fn has_id(stack: Seq<FrameView>, id: FileId) -> bool {
    exists|i: int| 0 <= i < stack.len() && (#[trigger] stack[i]).id == id
}

/// The state once the id of the requested directory and the names in it are known. It is an error if
/// the directory is also one of those that it is in.
pub open spec fn after_enter(s: WalkView, id: FileId, names: Seq<Seq<u8>>) -> Result<
    WalkView,
    Seq<Seq<u8>>,
> {
    match s.child {
        Some((dir, progress)) => if has_id(s.stack, id) {
            Err(dir)
        } else {
            let f = FrameView { dir, id, progress, names };
            Ok(settle(WalkView { stack: s.stack.push(f), child: None, ..s }))
        },
        None => {
            let f = FrameView {
                dir: s.found[0],
                id,
                progress: at_start(s.glob.floating),
                names,
            };
            Ok(settle(WalkView { found: s.found.skip(1), roots: s.roots.push(f), ..s }))
        },
    }
}

/// A glob that can be searched for.
pub open spec fn searchable(glob: GlobView) -> bool {
    &&& glob.well_formed()
    &&& glob.base.len() > 0 || glob.floating.len() > 0
    &&& forall|i: int|
        0 <= i < glob.floating.len() ==> (#[trigger] glob.floating[i]).len() <= usize::MAX / 8
}

pub open spec fn frames_valid(glob: GlobView, frames: Seq<FrameView>) -> bool {
    forall|i: int|
        0 <= i < frames.len() ==> allowed(glob.floating, (#[trigger] frames[i]).progress)
}

impl WalkView {
    /// The states that walks are in.
    pub open spec fn valid(self) -> bool {
        &&& searchable(self.glob)
        &&& forall|i: int|
            0 <= i < self.todo.len() ==> (#[trigger] self.todo[i]).seg < self.glob.base.len()
                && self.todo[i].names.len() == 0
        &&& self.base matches Some(b) ==> b.seg < self.glob.base.len() && b.names.len() > 0
        &&& self.found.len() > 0 ==> self.glob.floating.len() > 0
        &&& frames_valid(self.glob, self.roots)
        &&& frames_valid(self.glob, self.stack)
        &&& self.child matches Some((_, p)) ==> allowed(self.glob.floating, p)
        // What the base path leads to is entered first, and searched then.
        &&& self.base is Some || self.todo.len() > 0 ==> self.roots.len() == 0
        &&& self.base is Some || self.todo.len() > 0 || self.found.len() > 0 ==> self.stack.len()
            == 0 && self.child is None
        &&& self.child is None && self.found.len() == 0 ==> settle(self) == self
    }
}

/// The directory is among those that are or will be searched.
pub open spec fn among(frames: (Seq<FrameView>, Seq<FrameView>), f: FrameView) -> bool {
    frames.0.contains(f) || frames.1.contains(f)
}

/// Leaving directories changes nothing but that directories that are used up are gone.
pub proof fn lemma_settled(stack: Seq<FrameView>, roots: Seq<FrameView>)
    ensures
        settled(stack, roots).0.len() > 0 ==> settled(stack, roots).0.last().names.len() > 0,
        settled(stack, roots).0.len() == 0 ==> settled(stack, roots).1.len() == 0,
        settled(settled(stack, roots).0, settled(stack, roots).1) == settled(stack, roots),
        forall|f: FrameView| #[trigger]
            among(settled(stack, roots), f) ==> among((stack, roots), f),
        forall|f: FrameView| #[trigger]
            among((stack, roots), f) && f.names.len() > 0 ==> among(settled(stack, roots), f),
        // What is left of the stack is a prefix of it, or one of the roots.
        settled(stack, roots).0.len() <= 1 || settled(stack, roots).0.is_prefix_of(stack),
    decreases roots.len(), stack.len(),
{
    let after = settled(stack, roots);
    if stack.len() > 0 {
        if stack.last().names.len() == 0 {
            lemma_settled(stack.drop_last(), roots);
            assert forall|f: FrameView| #[trigger]
                among((stack, roots), f) && f.names.len() > 0 implies among(after, f) by {
                if stack.contains(f) {
                    let i = choose|i: int| 0 <= i < stack.len() && stack[i] == f;
                    assert(stack.drop_last()[i] == f);
                }
                assert(among((stack.drop_last(), roots), f));
            }
            assert forall|f: FrameView| #[trigger] among(after, f) implies among(
                (stack, roots),
                f,
            ) by {
                assert(among((stack.drop_last(), roots), f));
                if stack.drop_last().contains(f) {
                    let i = choose|i: int|
                        0 <= i < stack.drop_last().len() && stack.drop_last()[i] == f;
                    assert(stack[i] == f);
                }
            }
        }
    } else if roots.len() > 0 {
        let next = seq![roots.last()];
        lemma_settled(next, roots.drop_last());
        assert forall|f: FrameView| #[trigger]
            among((stack, roots), f) && f.names.len() > 0 implies among(after, f) by {
            let i = choose|i: int| 0 <= i < roots.len() && roots[i] == f;
            if i == roots.len() - 1 {
                assert(next[0] == f);
            } else {
                assert(roots.drop_last()[i] == f);
            }
            assert(among((next, roots.drop_last()), f));
        }
        assert forall|f: FrameView| #[trigger] among(after, f) implies among((stack, roots), f) by {
            assert(among((next, roots.drop_last()), f));
            if next.contains(f) {
                assert(roots[roots.len() - 1] == f);
            } else {
                let i = choose|i: int| 0 <= i < roots.drop_last().len() && roots.drop_last()[i] == f;
                assert(roots[i] == f);
            }
        }
        assert(after.0.len() <= 1);
    }
}

proof fn lemma_settle_valid(s: WalkView)
    requires
        s.child is None,
        frames_valid(s.glob, s.roots),
        frames_valid(s.glob, s.stack),
    ensures
        frames_valid(s.glob, settle(s).roots),
        frames_valid(s.glob, settle(s).stack),
        settle(settle(s)) == settle(s),
{
    lemma_settled(s.stack, s.roots);
    let t = settle(s);
    if s.found.len() == 0 {
        assert forall|i: int| 0 <= i < t.stack.len() implies allowed(
            s.glob.floating,
            (#[trigger] t.stack[i]).progress,
        ) by {
            assert(t.stack.contains(t.stack[i]));
            assert(among(settled(s.stack, s.roots), t.stack[i]));
        }
        assert forall|i: int| 0 <= i < t.roots.len() implies allowed(
            s.glob.floating,
            (#[trigger] t.roots[i]).progress,
        ) by {
            assert(t.roots.contains(t.roots[i]));
            assert(among(settled(s.stack, s.roots), t.roots[i]));
        }
    }
}

/// A search starts in a valid state.
pub proof fn lemma_started_valid(glob: GlobView)
    requires
        searchable(glob),
    ensures
        started(glob).valid(),
{
}

pub proof fn lemma_after_read_valid(s: WalkView, names: Seq<Seq<u8>>)
    requires
        s.valid(),
        requested(s) is Read,
    ensures
        after_read(s, names).valid(),
{
}

pub proof fn lemma_after_kind_valid(s: WalkView, ty: FileType)
    requires
        s.valid(),
        requested(s) is Kind,
    ensures
        after_kind(s, ty).valid(),
{
    if s.base is None {
        let f = s.stack.last();
        let stack = s.stack.drop_last().push(FrameView { names: f.names.skip(1), ..f });
        assert(allowed(s.glob.floating, s.stack[s.stack.len() - 1].progress));
        assert(frames_valid(s.glob, stack));
        if ty is File {
            lemma_settle_valid(WalkView { stack, ..s });
            lemma_settle_valid(WalkView { stack, matches: s.matches.push(f.dir.push(f.names[0])), ..s });
        } else {
            assert(s.glob.floating[f.progress.path as int].len() > 0);
            if f.progress.path + 1 < s.glob.floating.len() {
                assert(s.glob.floating[f.progress.path as int + 1].len() > 0);
            }
        }
    }
}

pub proof fn lemma_after_enter_valid(s: WalkView, id: FileId, names: Seq<Seq<u8>>)
    requires
        s.valid(),
        requested(s) is Enter,
    ensures
        after_enter(s, id, names) matches Ok(t) ==> t.valid(),
{
    if s.child is Some {
        let (dir, progress) = s.child->0;
        let f = FrameView { dir, id, progress, names };
        lemma_settle_valid(WalkView { stack: s.stack.push(f), child: None, ..s });
    } else {
        assert(s.glob.floating[0].len() > 0);
        let f = FrameView { dir: s.found[0], id, progress: at_start(s.glob.floating), names };
        lemma_settle_valid(WalkView { found: s.found.skip(1), roots: s.roots.push(f), ..s });
    }
}

/// A directory whose entries have to match a segment of the base path. The names are kept in
/// reverse.
#[derive(Debug)]
struct BaseDir {
    dir: Vec<Vec<u8>>,
    seg: usize,
    names: Vec<Vec<u8>>,
}

/// A directory below the base path. The names are kept in reverse.
#[derive(Debug)]
struct Frame {
    dir: Vec<Vec<u8>>,
    id: FileId,
    path: usize,
    bits: SegBits,
    names: Vec<Vec<u8>>,
}

/// A directory to go down to.
#[derive(Debug)]
struct Child {
    dir: Vec<Vec<u8>>,
    path: usize,
    bits: SegBits,
}

impl View for BaseDir {
    type V = BaseView;

    closed spec fn view(&self) -> BaseView {
        BaseView {
            dir: seqs(self.dir@),
            seg: self.seg as nat,
            names: seqs(self.names@).reverse(),
        }
    }
}

impl View for Frame {
    type V = FrameView;

    closed spec fn view(&self) -> FrameView {
        FrameView {
            dir: seqs(self.dir@),
            id: self.id,
            progress: Progress { path: self.path as nat, bits: self.bits@ },
            names: seqs(self.names@).reverse(),
        }
    }
}

impl View for Child {
    type V = (Seq<Seq<u8>>, Progress);

    closed spec fn view(&self) -> (Seq<Seq<u8>>, Progress) {
        (seqs(self.dir@), Progress { path: self.path as nat, bits: self.bits@ })
    }
}

/// A search for the files that a glob matches.
#[derive(Debug)]
pub struct Walk {
    glob: Glob,
    todo: Vec<BaseDir>,
    base: Option<BaseDir>,
    found: Vec<Vec<Vec<u8>>>,
    roots: Vec<Frame>,
    stack: Vec<Frame>,
    child: Option<Child>,
    matches: Vec<Vec<Vec<u8>>>,
}

impl View for Walk {
    type V = WalkView;

    closed spec fn view(&self) -> WalkView {
        WalkView {
            glob: self.glob@,
            todo: self.todo@.map_values(|b: BaseDir| b@),
            base: match self.base {
                Some(b) => Some(b@),
                None => None,
            },
            found: seqs2(self.found@),
            roots: self.roots@.map_values(|f: Frame| f@),
            stack: self.stack@.map_values(|f: Frame| f@),
            child: match self.child {
                Some(c) => Some(c@),
                None => None,
            },
            matches: seqs2(self.matches@),
        }
    }
}

/// What a walk has to know next.
#[derive(Debug)]
pub enum Request {
    /// The names in a directory, for [`Walk::read`].
    Read(Vec<Vec<u8>>),
    /// The type of a file, for [`Walk::kind`].
    Kind(Vec<Vec<u8>>),
    /// The id of a directory and the names in it, for [`Walk::enter`].
    Enter(Vec<Vec<u8>>),
    /// Nothing more: it is time for [`Walk::finish`].
    Done,
}

impl View for Request {
    type V = RequestView;

    open spec fn view(&self) -> RequestView {
        match self {
            Request::Read(dir) => RequestView::Read(seqs(dir@)),
            Request::Kind(path) => RequestView::Kind(seqs(path@)),
            Request::Enter(dir) => RequestView::Enter(seqs(dir@)),
            Request::Done => RequestView::Done,
        }
    }
}

/// Why a walk has no result.
#[derive(Debug)]
pub enum WalkError {
    /// A directory is also one of those that it is in.
    SymlinkLoop(Vec<Vec<u8>>),
    /// A glob without wildcards matches no file.
    NoMatch,
    /// A glob without wildcards matches more than one file.
    MultipleMatches(Vec<Vec<Vec<u8>>>),
}

/// A path with one more name.
fn joined_path(dir: &Vec<Vec<u8>>, name: Vec<u8>) -> (r: Vec<Vec<u8>>)
    ensures
        seqs(r@) == seqs(dir@).push(name@),
{
    let mut r = copied_list(dir);
    let ghost before = seqs(r@);
    r.push(name);
    assert(seqs(r@) =~= before.push(name@));
    r
}

/// Those of the names that match the segment, from the last to the first.
fn matching_reversed(glob: &Glob, seg: usize, names: Vec<Vec<u8>>) -> (r: Vec<Vec<u8>>)
    requires
        seg < glob@.base.len(),
    ensures
        seqs(r@).reverse() == matching_names(glob@, seg as nat, seqs(names@)),
{
    let ghost all = seqs(names@);
    let ghost segment = glob@.base[seg as int];
    let ghost p = |name: Seq<u8>| text_matches(segment, name);
    let mut names = names;
    let mut r: Vec<Vec<u8>> = Vec::new();
    assert(glob.base_path@[seg as int] == glob.base_path.segments@[seg as int]@);
    assert(all.take(all.len() as int) == all);
    assert(all.filter(p) + seqs(r@).reverse() =~= all.filter(p));
    while names.len() > 0
        invariant
            segment == glob@.base[seg as int],
            seg < glob.base_path.segments@.len(),
            glob.base_path.segments@[seg as int]@ == segment,
            p == |name: Seq<u8>| text_matches(segment, name),
            names@.len() <= all.len(),
            seqs(names@) == all.take(names@.len() as int),
            all.filter(p) == seqs(names@).filter(p) + seqs(r@).reverse(),
        decreases names@.len(),
    {
        let ghost before = seqs(names@);
        let ghost old_r = seqs(r@);
        if let Some(name) = names.pop() {
            proof {
                reveal(Seq::filter);
                assert(before.drop_last() =~= seqs(names@));
                assert(before.last() == name@);
            }
            if glob.base_path.segments[seg].match_text(&name) {
                let ghost view = name@;
                r.push(name);
                proof {
                    assert(seqs(r@) =~= old_r.push(view));
                    assert(seqs(r@).reverse() =~= seq![view] + old_r.reverse());
                    assert(all.filter(p) =~= seqs(names@).filter(p) + seqs(r@).reverse());
                }
            }
        }
    }
    proof {
        reveal(Seq::filter);
        assert(seqs(names@).filter(p).len() == 0);
        assert(seqs(r@).reverse() =~= all.filter(p));
    }
    r
}

/// The names from the last to the first.
fn names_reversed(names: Vec<Vec<u8>>) -> (r: Vec<Vec<u8>>)
    ensures
        seqs(r@).reverse() == seqs(names@),
{
    let ghost all = names@;
    let r = reversed(names);
    assert(seqs(r@).reverse() =~= seqs(all));
    r
}

/// Starts a search for the files that a glob matches.
pub fn glob_files_relative(glob: &str) -> (r: Result<Walk, GlobError>)
    requires
        glob@.len() <= usize::MAX / 8,
    ensures
        match searched(glob@) {
            Err(e) => r == Err::<Walk, GlobError>(e),
            Ok(g) => r matches Ok(w) && w@ == started(g) && w@.valid(),
        },
{
    proof {
        law_parsed_well_formed(glob@);
    }
    let glob = match parse(glob) {
        Ok(g) => g,
        Err(e) => {
            return Err(e);
        },
    };
    if glob.trailing_sep {
        return Err(GlobError::TrailingSeparator);
    }
    if glob.base_path.segments.len() == 0 && glob.floating_paths.len() == 0 {
        return Err(GlobError::NoSegments);
    }
    let ghost g = glob@;
    let mut todo: Vec<BaseDir> = Vec::new();
    let mut found: Vec<Vec<Vec<u8>>> = Vec::new();
    if glob.base_path.segments.len() > 0 {
        todo.push(BaseDir { dir: Vec::new(), seg: 0, names: Vec::new() });
    } else {
        found.push(Vec::new());
    }
    let r = Walk {
        glob,
        todo,
        base: None,
        found,
        roots: Vec::new(),
        stack: Vec::new(),
        child: None,
        matches: Vec::new(),
    };
    proof {
        let s = started(g);
        if g.base.len() > 0 {
            assert(seqs(todo@[0].dir@) =~= seq![]);
            assert(seqs(todo@[0].names@).reverse() =~= seq![]);
        } else {
            assert(seqs(found@[0]@) =~= seq![]);
        }
        assert(r@.todo =~= s.todo);
        assert(r@.found =~= s.found);
        assert(r@.roots =~= s.roots);
        assert(r@.stack =~= s.stack);
        assert(r@.matches =~= s.matches);
        lemma_started_valid(g);
    }
    Ok(r)
}

impl Walk {
    /// How many levels above the given directory the match starts.
    pub fn parent_segs(&self) -> (r: usize)
        ensures
            r == self@.glob.parent_segs,
    {
        self.glob.parent_segs
    }

    /// What the walk has to know next.
    pub fn request(&self) -> (r: Request)
        requires
            self@.valid(),
        ensures
            r@ == requested(self@),
    {
        if let Some(b) = &self.base {
            return Request::Kind(next_path(&b.dir, &b.names));
        }
        if let Some(c) = &self.child {
            return Request::Enter(copied_list(&c.dir));
        }
        if self.todo.len() > 0 {
            assert(self@.todo.last() == self.todo@[self.todo@.len() - 1]@);
            return Request::Read(copied_list(&self.todo[self.todo.len() - 1].dir));
        }
        if self.found.len() > 0 {
            assert(self@.found[0] == seqs(self.found@[0]@));
            return Request::Enter(copied_list(&self.found[0]));
        }
        if self.stack.len() > 0 {
            let f = &self.stack[self.stack.len() - 1];
            proof {
                assert(self@.stack.last() == f@);
                lemma_settled(self@.stack, self@.roots);
            }
            return Request::Kind(next_path(&f.dir, &f.names));
        }
        Request::Done
    }

    /// Tells the walk the names in the directory that it asked for.
    pub fn read(&mut self, names: Vec<Vec<u8>>)
        requires
            old(self)@.valid(),
            requested(old(self)@) is Read,
        ensures
            final(self)@ == after_read(old(self)@, seqs(names@)),
            final(self)@.valid(),
    {
        let ghost s = self@;
        let ghost all = seqs(names@);
        proof {
            lemma_after_read_valid(s, all);
            assert(self.base is None);
            assert(s.todo.last() == self.todo@[self.todo@.len() - 1]@);
        }
        if let Some(next) = self.todo.pop() {
            assert(self.todo@.map_values(|b: BaseDir| b@) =~= s.todo.drop_last());
            let names = matching_reversed(&self.glob, next.seg, names);
            if names.len() > 0 {
                self.base = Some(BaseDir { dir: next.dir, seg: next.seg, names });
            }
        }
        assert(self@ =~= after_read(s, all));
    }

    /// Tells the walk the type of the file that it asked for.
    pub fn kind(&mut self, ty: FileType)
        requires
            old(self)@.valid(),
            requested(old(self)@) is Kind,
        ensures
            final(self)@ == after_kind(old(self)@, ty),
            final(self)@.valid(),
    {
        proof {
            lemma_after_kind_valid(self@, ty);
        }
        match self.base.take() {
            Some(b) => self.base_kind(b, ty),
            None => self.floating_kind(ty),
        }
    }

    fn base_kind(&mut self, b: BaseDir, ty: FileType)
        requires
            old(self).base is None,
            b@.seg < old(self)@.glob.base.len(),
            b@.names.len() > 0,
        ensures
            final(self)@ == after_kind((WalkView { base: Some(b@), ..old(self)@ }), ty),
    {
        let ghost s = WalkView { base: Some(b@), ..self@ };
        let mut b = b;
        let path = take_path(&b.dir, &mut b.names);
        let ghost view = seqs(path@);
        let last = b.seg == self.glob.base_path.segments.len() - 1;
        let floating = self.glob.floating_paths.len() > 0;
        match ty {
            FileType::File => {
                if last && !floating {
                    self.matches.push(path);
                    assert(seqs2(self.matches@) =~= s.matches.push(view));
                }
            },
            FileType::Dir => {
                if !last {
                    let next = BaseDir { dir: path, seg: b.seg + 1, names: Vec::new() };
                    assert(next@.names =~= seq![]);
                    self.todo.push(next);
                    assert(self.todo@.map_values(|b: BaseDir| b@) =~= s.todo.push(next@));
                } else if floating {
                    self.found.push(path);
                    assert(seqs2(self.found@) =~= s.found.push(view));
                }
            },
        }
        if b.names.len() > 0 {
            self.base = Some(b);
        }
        assert(self@ =~= after_kind(s, ty));
    }

    fn floating_kind(&mut self, ty: FileType)
        requires
            old(self)@.valid(),
            old(self)@.base is None,
            requested(old(self)@) is Kind,
        ensures
            final(self)@ == after_kind(old(self)@, ty),
    {
        let ghost s = self@;
        let ghost n = s.stack.len() - 1;
        proof {
            lemma_settled(s.stack, s.roots);
            assert(s.stack.last() == self.stack@[n]@);
            assert(allowed(s.glob.floating, s.stack[n].progress));
        }
        if let Some(mut f) = self.stack.pop() {
            let path = take_path(&f.dir, &mut f.names);
            let ghost view = seqs(path@);
            assert(path@[path@.len() - 1]@ == view[view.len() - 1]);
            let name = &path[path.len() - 1];
            match ty {
                FileType::File => {
                    let accepted = accept(&self.glob.floating_paths, f.path, &f.bits, name);
                    if accepted {
                        self.matches.push(path);
                        assert(seqs2(self.matches@) =~= s.matches.push(view));
                    }
                    self.stack.push(f);
                    assert(self.stack@.map_values(|f: Frame| f@) =~= s.stack.drop_last().push(f@));
                    self.settle();
                },
                FileType::Dir => {
                    let (path_index, bits) = advance(
                        &self.glob.floating_paths,
                        f.path,
                        &f.bits,
                        name,
                    );
                    self.child = Some(Child { dir: path, path: path_index, bits });
                    self.stack.push(f);
                    assert(self.stack@.map_values(|f: Frame| f@) =~= s.stack.drop_last().push(f@));
                },
            }
            assert(self@ =~= after_kind(s, ty));
        }
    }

    /// Leaves the directories that are used up.
    fn settle(&mut self)
        ensures
            final(self)@ == settle(old(self)@),
    {
        let ghost s = self@;
        if self.found.len() > 0 {
            return;
        }
        loop
            invariant_except_break
                self@ == (WalkView { stack: self@.stack, roots: self@.roots, ..s }),
                s.found.len() == 0,
                settled(self@.stack, self@.roots) == settled(s.stack, s.roots),
            ensures
                self@ == settle(s),
            decreases self@.roots.len(), self@.stack.len(),
        {
            let ghost stack = self@.stack;
            let ghost roots = self@.roots;
            if self.stack.len() > 0 {
                assert(stack.last() == self.stack@[self.stack@.len() - 1]@);
                if self.stack[self.stack.len() - 1].names.len() > 0 {
                    break;
                }
                let _ = self.stack.pop();
                assert(self@.stack =~= stack.drop_last());
            } else {
                match self.roots.pop() {
                    Some(f) => {
                        self.stack.push(f);
                        assert(self@.roots =~= roots.drop_last());
                        assert(self@.stack =~= seq![roots.last()]);
                    },
                    None => {
                        break;
                    },
                }
            }
        }
    }

    /// Tells the walk the id of the directory that it asked for, and the names in it.
    pub fn enter(&mut self, id: FileId, names: Vec<Vec<u8>>) -> (r: Result<(), WalkError>)
        requires
            old(self)@.valid(),
            requested(old(self)@) is Enter,
        ensures
            match after_enter(old(self)@, id, seqs(names@)) {
                Ok(s) => r is Ok && final(self)@ == s && s.valid(),
                Err(dir) => r matches Err(WalkError::SymlinkLoop(d)) && seqs(d@) == dir
                    && final(self)@ == old(self)@,
            },
    {
        let ghost s = self@;
        let ghost all = seqs(names@);
        proof {
            lemma_after_enter_valid(s, id, all);
        }
        if self.child.is_some() && self.searches(id) {
            let dir = match &self.child {
                Some(c) => copied_list(&c.dir),
                None => Vec::new(),
            };
            return Err(WalkError::SymlinkLoop(dir));
        }
        let names = names_reversed(names);
        match self.child.take() {
            Some(c) => {
                let f = Frame { dir: c.dir, id, path: c.path, bits: c.bits, names };
                self.stack.push(f);
                assert(self.stack@.map_values(|f: Frame| f@) =~= s.stack.push(f@));
                assert(self@ =~= (WalkView { stack: s.stack.push(f@), child: None, ..s }));
            },
            None => {
                assert(s.glob.floating[0] == self.glob.floating_paths@[0]@);
                assert(s.glob.floating[0].len() > 0);
                assert(s.found[0] == seqs(self.found@[0]@));
                let len = self.glob.floating_paths[0].segments.len();
                let dir = self.found.remove(0);
                assert(seqs2(self.found@) =~= s.found.skip(1));
                let f = Frame { dir, id, path: 0, bits: SegBits::zeros(len - 1), names };
                assert(f@.progress =~= at_start(s.glob.floating));
                self.roots.push(f);
                assert(self.roots@.map_values(|f: Frame| f@) =~= s.roots.push(f@));
                assert(self@ =~= (WalkView {
                    found: s.found.skip(1),
                    roots: s.roots.push(f@),
                    ..s
                }));
            },
        }
        self.settle();
        Ok(())
    }

    /// Whether a directory of that id is being searched.
    fn searches(&self, id: FileId) -> (r: bool)
        ensures
            r == has_id(self@.stack, id),
    {
        let mut i: usize = 0;
        while i < self.stack.len()
            invariant
                i <= self.stack@.len(),
                forall|j: int| 0 <= j < i ==> (#[trigger] self@.stack[j]).id != id,
            decreases self.stack@.len() - i,
        {
            assert(self@.stack[i as int] == self.stack@[i as int]@);
            if self.stack[i].id == id {
                return true;
            }
            i += 1;
        }
        false
    }

    /// The files that match, in order. A glob without wildcards has to match exactly one.
    pub fn finish(self) -> (r: Result<Vec<Vec<Vec<u8>>>, WalkError>)
        requires
            self@.valid(),
            requested(self@) is Done,
        ensures
            match r {
                Ok(paths) => is_sorted(seqs2(paths@), self@.matches) && (
                self@.glob.is_match_multiple() || self@.matches.len() == 1),
                Err(WalkError::NoMatch) => !self@.glob.is_match_multiple() && self@.matches.len()
                    == 0,
                Err(WalkError::MultipleMatches(paths)) => is_sorted(seqs2(paths@), self@.matches)
                    && !self@.glob.is_match_multiple() && self@.matches.len() >= 2,
                Err(WalkError::SymlinkLoop(_)) => false,
            },
    {
        let multiple = self.glob.is_match_multiple();
        let ghost matches = self@.matches;
        let len = self.matches.len();
        let paths = sort(self.matches);
        proof {
            assert(keys(self.matches@) =~= matches);
            assert(keys(paths@) =~= seqs2(paths@));
            assert forall|i: int, j: int| 0 <= i <= j < seqs2(paths@).len() implies path_le(
                #[trigger] seqs2(paths@)[i],
                #[trigger] seqs2(paths@)[j],
            ) by {
                assert(path_le(paths@[i].key(), paths@[j].key()));
            }
        }
        if !multiple {
            if len == 0 {
                return Err(WalkError::NoMatch);
            }
            if len > 1 {
                return Err(WalkError::MultipleMatches(paths));
            }
        }
        Ok(paths)
    }
}

/// The paths in order.
pub open spec fn is_sorted(sorted: Seq<Seq<Seq<u8>>>, paths: Seq<Seq<Seq<u8>>>) -> bool {
    &&& sorted.to_multiset() == paths.to_multiset()
    &&& forall|i: int, j: int|
        0 <= i <= j < sorted.len() ==> path_le(#[trigger] sorted[i], #[trigger] sorted[j])
}

/// The path of the next of the names, which are kept in reverse.
fn next_path(dir: &Vec<Vec<u8>>, names: &Vec<Vec<u8>>) -> (r: Vec<Vec<u8>>)
    requires
        names@.len() > 0,
    ensures
        seqs(r@) == seqs(dir@).push(seqs(names@).reverse()[0]),
{
    let name = &names[names.len() - 1];
    let copy = copied(name, 0, name.len());
    assert(copy@ =~= name@);
    assert(seqs(names@).reverse()[0] == name@);
    joined_path(dir, copy)
}

/// Takes the next of the names, which are kept in reverse, and joins it to the directory.
fn take_path(dir: &Vec<Vec<u8>>, names: &mut Vec<Vec<u8>>) -> (r: Vec<Vec<u8>>)
    requires
        old(names)@.len() > 0,
    ensures
        seqs(r@) == seqs(dir@).push(seqs(old(names)@).reverse()[0]),
        seqs(final(names)@).reverse() == seqs(old(names)@).reverse().skip(1),
{
    let ghost before = seqs(names@);
    let last = names.len() - 1;
    let name = names.swap_remove(last);
    proof {
        assert(before.reverse()[0] == name@);
        assert(seqs(names@) =~= before.drop_last());
        assert(seqs(names@).reverse() =~= before.reverse().skip(1));
    }
    joined_path(dir, name)
}

/// What a search finds is in the order of paths, with nothing left out and nothing twice that is there
/// once.
pub proof fn law_found_order(sorted: Seq<Seq<Seq<u8>>>, paths: Seq<Seq<Seq<u8>>>, i: int, j: int)
    requires
        is_sorted(sorted, paths),
        0 <= i < j < sorted.len(),
    ensures
        sorted.len() == paths.len(),
        paths.contains(sorted[i]),
        path_le(sorted[i], sorted[j]),
        sorted[i] != sorted[j] ==> !path_le(sorted[j], sorted[i]),
{
    broadcast use vstd::seq_lib::group_to_multiset_ensures;

    lemma_path_le_total(sorted[i], sorted[j]);
    assert(sorted.contains(sorted[i]));
    assert(sorted.to_multiset().count(sorted[i]) > 0);
    assert(sorted.to_multiset().len() == sorted.len());
    assert(paths.to_multiset().len() == paths.len());
}

/// A search is for files: a glob that ends with a separator, or only leads up, is not searched for. Any
/// other that can be read is.
pub proof fn law_searched(s: Seq<char>)
    ensures
        parsed(s) matches Err(e) ==> searched(s) == Err::<GlobView, GlobError>(e),
        parsed(s) matches Ok(glob) ==> {
            &&& glob.trailing_sep ==> searched(s) == Err::<GlobView, GlobError>(
                GlobError::TrailingSeparator,
            )
            &&& !glob.trailing_sep && glob.base.len() == 0 && glob.floating.len() == 0 ==> searched(s)
                == Err::<GlobView, GlobError>(GlobError::NoSegments)
            &&& !glob.trailing_sep && (glob.base.len() > 0 || glob.floating.len() > 0) ==> searched(s)
                == Ok::<GlobView, GlobError>(glob)
        },
{
}

} // verus!
