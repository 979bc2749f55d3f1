//! Where packs are written to: a directory, a zip archive, or both.
use crate::cli::Compression;
use crate::file::FileType;
use crate::order::same_name;
use crate::text::{chars, copied, lemma_run, lemma_run_is, push_chars, run, seqs};
use crate::utf8::from_utf8;
use vstd::prelude::*;
use vstd::utf8::{decode_utf8, valid_utf8};

verus! {

/// The characters that separate the names in a path.
pub open spec fn is_separator(c: char) -> bool {
    c == '/' || c == '\\'
}

/// The pieces of a path between its separators.
pub open spec fn pieces(path: Seq<char>) -> Seq<Seq<char>>
    decreases path.len(),
    via pieces_decreases
{
    let n = run(path, |c: char| !is_separator(c)) as int;
    if n == path.len() {
        seq![path]
    } else {
        seq![path.take(n)] + pieces(path.skip(n + 1))
    }
}

#[via_fn]
proof fn pieces_decreases(path: Seq<char>) {
    lemma_run(path, |c: char| !is_separator(c));
}

/// A piece of a path that leads somewhere.
pub open spec fn is_step(piece: Seq<char>) -> bool {
    piece.len() > 0 && piece != seq!['.']
}

/// The steps that are left of a path when each `..` takes back the step before it. What follows a `..`
/// is not looked at.
pub open spec fn kept(done: Seq<Seq<char>>, rest: Seq<Seq<char>>) -> Seq<Seq<char>>
    decreases rest.len(),
{
    if rest.len() == 0 {
        done
    } else if rest[0] == seq!['.', '.'] {
        let back = if done.len() > 0 {
            done.drop_last()
        } else {
            done
        };
        if rest.len() == 1 {
            back
        } else {
            kept(back.push(rest[1]), rest.skip(2))
        }
    } else {
        kept(done.push(rest[0]), rest.skip(1))
    }
}

/// The steps, each with a separator behind it.
pub open spec fn slashed(steps: Seq<Seq<char>>) -> Seq<char>
    decreases steps.len(),
{
    if steps.len() == 0 {
        seq![]
    } else {
        slashed(steps.drop_last()) + steps.last() + seq!['/']
    }
}

/// The steps of a relative path, before any are taken back.
pub open spec fn steps_of(path: Seq<char>) -> Seq<Seq<char>> {
    pieces(path).filter(|p: Seq<char>| is_step(p))
}

/// A relative path in the form that archives have.
pub open spec fn normalized_path(path: Seq<char>) -> Seq<char> {
    slashed(kept(seq![], steps_of(path)))
}

/// The steps of a path.
fn steps(path: &[char]) -> (r: Vec<Vec<char>>)
    ensures
        seqs(r@) == steps_of(path@),
{
    let ghost p = |s: Seq<char>| is_step(s);
    let len = path.len();
    let mut r: Vec<Vec<char>> = Vec::new();
    let mut pos: usize = 0;
    proof {
        assert(path@.skip(0) =~= path@);
        assert(seqs(r@) + pieces(path@).filter(p) =~= pieces(path@).filter(p));
    }
    loop
        invariant_except_break
            len == path@.len(),
            pos <= len,
            p == |s: Seq<char>| is_step(s),
            pieces(path@).filter(p) == seqs(r@) + pieces(path@.skip(pos as int)).filter(p),
        ensures
            seqs(r@) == pieces(path@).filter(p),
        decreases len - pos,
    {
        let ghost rest = path@.skip(pos as int);
        let ghost before = seqs(r@);
        let mut end = pos;
        while end < len && path[end] != '/' && path[end] != '\\'
            invariant
                len == path@.len(),
                pos <= end <= len,
                rest == path@.skip(pos as int),
                forall|i: int| 0 <= i < end - pos ==> !is_separator(#[trigger] rest[i]),
            decreases len - end,
        {
            assert(rest[end - pos] == path@[end as int]);
            end += 1;
        }
        let ghost n = end - pos;
        let piece = copied(path, pos, end);
        let ghost view = piece@;
        proof {
            if end < len {
                assert(rest[n] == path@[end as int]);
            }
            lemma_run_is(rest, |c: char| !is_separator(c), n as nat);
            assert(view =~= rest.take(n));
            if end == len {
                assert(rest =~= view);
            } else {
                assert(rest.skip(n + 1) =~= path@.skip(end + 1));
            }
            let tail = if end == len {
                seq![]
            } else {
                pieces(path@.skip(end + 1))
            };
            assert(pieces(rest) =~= seq![view] + tail);
            lemma_filter_first(view, tail, p);
        }
        let step = piece.len() > 0 && !(piece.len() == 1 && piece[0] == '.');
        proof {
            if view.len() == 1 && view[0] == '.' {
                assert(view =~= seq!['.']);
            }
            assert(step == is_step(view));
        }
        if step {
            r.push(piece);
            assert(seqs(r@) =~= before.push(view));
        }
        if end == len {
            proof {
                reveal(Seq::filter);
                assert(Seq::<Seq<char>>::empty().filter(p) =~= seq![]);
                assert(seqs(r@) =~= pieces(path@).filter(p));
            }
            break;
        }
        proof {
            assert(seqs(r@) + pieces(path@.skip(end + 1)).filter(p) =~= pieces(path@).filter(p));
        }
        pos = end + 1;
    }
    r
}

proof fn lemma_filter_first<T>(first: T, rest: Seq<T>, p: spec_fn(T) -> bool)
    ensures
        (seq![first] + rest).filter(p) == (if p(first) {
            seq![first]
        } else {
            seq![]
        }) + rest.filter(p),
    decreases rest.len(),
{
    reveal(Seq::filter);
    let all = seq![first] + rest;
    if rest.len() == 0 {
        assert(all.drop_last() =~= seq![]);
        assert(Seq::<T>::empty().filter(p) =~= seq![]);
        assert(rest.filter(p) =~= seq![]);
    } else {
        lemma_filter_first(first, rest.drop_last(), p);
        assert(all.drop_last() =~= seq![first] + rest.drop_last());
        assert(all.last() == rest.last());
    }
}

/// The steps that are left of a path.
fn kept_steps(path: &str) -> (r: Vec<Vec<char>>)
    ensures
        seqs(r@) == kept(seq![], steps_of(path@)),
{
    let path_chars = chars(path);
    let rest = steps(&path_chars);
    let ghost all = seqs(rest@);
    let mut done: Vec<Vec<char>> = Vec::new();
    let mut i: usize = 0;
    proof {
        assert(seqs(done@) =~= seq![]);
        assert(all.skip(0) =~= all);
    }
    while i < rest.len()
        invariant
            all == seqs(rest@),
            i <= rest@.len(),
            kept(seq![], all) == kept(seqs(done@), all.skip(i as int)),
        decreases rest@.len() - i,
    {
        let ghost before = seqs(done@);
        let ghost left = all.skip(i as int);
        assert(left[0] == rest@[i as int]@);
        if rest[i].len() == 2 && rest[i][0] == '.' && rest[i][1] == '.' {
            assert(left[0] =~= seq!['.', '.']);
            let _ = done.pop();
            let ghost back = if before.len() > 0 {
                before.drop_last()
            } else {
                before
            };
            assert(seqs(done@) =~= back);
            if i < rest.len() - 1 {
                let next = copied(&rest[i + 1], 0, rest[i + 1].len());
                proof {
                    assert(next@ =~= rest@[i + 1]@);
                    assert(left[1] == rest@[i + 1]@);
                }
                done.push(next);
                proof {
                    assert(seqs(done@) =~= back.push(left[1]));
                    assert(left.skip(2) =~= all.skip(i + 2));
                }
                i += 2;
            } else {
                assert(kept(back, all.skip(i + 1)) == back);
                i += 1;
            }
        } else {
            let next = copied(&rest[i], 0, rest[i].len());
            assert(next@ =~= left[0]);
            done.push(next);
            proof {
                assert(seqs(done@) =~= before.push(left[0]));
                assert(left.skip(1) =~= all.skip(i + 1));
            }
            i += 1;
        }
    }
    done
}

/// Brings a relative path into the form that archives have: with `/` behind each name, and without
/// the names that lead nowhere.
pub fn normalize_relative_path(path: &str) -> (r: String)
    ensures
        r@ == normalized_path(path@),
{
    let done = kept_steps(path);
    let ghost steps = seqs(done@);
    let mut r = String::new();
    let mut k: usize = 0;
    assert(steps.take(0) =~= seq![]);
    while k < done.len()
        invariant
            steps == seqs(done@),
            k <= done@.len(),
            r@ == slashed(steps.take(k as int)),
        decreases done@.len() - k,
    {
        proof {
            let next = steps.take(k + 1);
            assert(next.drop_last() =~= steps.take(k as int));
            assert(next.last() == done@[k as int]@);
        }
        push_chars(&mut r, &done[k]);
        r.push('/');
        assert(r@ =~= slashed(steps.take(k + 1)));
        k += 1;
    }
    assert(steps.take(k as int) =~= steps);
    r
}

/// The piece is a name: it is not empty, not `.`, and has no separators in it.
pub open spec fn is_name(piece: Seq<char>) -> bool {
    is_step(piece) && forall|i: int| 0 <= i < piece.len() ==> !is_separator(#[trigger] piece[i])
}

proof fn lemma_pieces(path: Seq<char>)
    ensures
        forall|i: int, j: int|
            0 <= i < pieces(path).len() && 0 <= j < pieces(path)[i].len() ==> !is_separator(
                #[trigger] pieces(path)[i][j],
            ),
    decreases path.len(),
{
    let p = |c: char| !is_separator(c);
    let n = run(path, p) as int;
    lemma_run(path, p);
    if n < path.len() {
        let rest = pieces(path.skip(n + 1));
        lemma_pieces(path.skip(n + 1));
        assert forall|i: int, j: int|
            0 <= i < pieces(path).len() && 0 <= j < pieces(path)[i].len() implies !is_separator(
            #[trigger] pieces(path)[i][j],
        ) by {
            if i > 0 {
                assert(pieces(path)[i] == rest[i - 1]);
            } else {
                assert(p(path[j]));
            }
        }
    } else {
        assert forall|j: int| 0 <= j < path.len() implies !is_separator(#[trigger] path[j]) by {
            assert(p(path[j]));
        }
    }
}

/// All of the pieces are names.
pub open spec fn are_names(pieces: Seq<Seq<char>>) -> bool {
    forall|i: int| 0 <= i < pieces.len() ==> is_name(#[trigger] pieces[i])
}

proof fn lemma_kept(done: Seq<Seq<char>>, rest: Seq<Seq<char>>)
    requires
        are_names(done),
        are_names(rest),
    ensures
        are_names(kept(done, rest)),
    decreases rest.len(),
{
    if rest.len() > 0 {
        if rest[0] == seq!['.', '.'] {
            let back = if done.len() > 0 {
                done.drop_last()
            } else {
                done
            };
            assert(are_names(back));
            if rest.len() > 1 {
                assert(are_names(back.push(rest[1])));
                assert(are_names(rest.skip(2)));
                lemma_kept(back.push(rest[1]), rest.skip(2));
            } else {
                assert(kept(done, rest) == back);
            }
        } else {
            assert(are_names(done.push(rest[0])));
            assert(are_names(rest.skip(1)));
            lemma_kept(done.push(rest[0]), rest.skip(1));
        }
    }
}

/// A normalized path is made of names, each with one `/` behind it, whatever separators it had.
pub proof fn law_normalized(path: Seq<char>)
    ensures
        are_names(kept(seq![], steps_of(path))),
        normalized_path(path) == slashed(kept(seq![], steps_of(path))),
{
    let p = |s: Seq<char>| is_step(s);
    let steps = steps_of(path);
    assert(steps == pieces(path).filter(p));
    lemma_pieces(path);
    assert forall|i: int| 0 <= i < steps.len() implies is_name(#[trigger] steps[i]) by {
        assert(steps.contains(steps[i]));
        crate::text::lemma_filter(pieces(path), p, steps[i]);
        let k = choose|k: int| 0 <= k < pieces(path).len() && pieces(path)[k] == steps[i];
        assert forall|j: int| 0 <= j < steps[i].len() implies !is_separator(
            #[trigger] steps[i][j],
        ) by {
            assert(!is_separator(pieces(path)[k][j]));
        }
    }
    lemma_kept(seq![], steps);
}

/// A path without `..` keeps all of its names.
pub proof fn law_kept(done: Seq<Seq<char>>, rest: Seq<Seq<char>>)
    requires
        forall|i: int| 0 <= i < rest.len() ==> #[trigger] rest[i] != seq!['.', '.'],
    ensures
        kept(done, rest) == done + rest,
    decreases rest.len(),
{
    if rest.len() > 0 {
        law_kept(done.push(rest[0]), rest.skip(1));
        assert(done.push(rest[0]) + rest.skip(1) =~= done + rest);
    } else {
        assert(done + rest =~= done);
    }
}

/// How an entry of an archive is stored.
#[derive(Clone, Copy, Debug, PartialEq, Eq, Structural)]
pub struct ZipOptions {
    /// Whether the entry is compressed.
    pub deflated: bool,
    pub level: Option<i64>,
    /// How much data is compressed at a time.
    pub zopfli_buffer: Option<usize>,
    pub permissions: u32,
}

/// How files are stored in an archive.
pub open spec fn zip_file_options(compression: Compression) -> ZipOptions {
    match compression {
        Compression::Off => ZipOptions {
            deflated: false,
            level: None,
            zopfli_buffer: None,
            permissions: 0o664,
        },
        Compression::Normal => ZipOptions {
            deflated: true,
            level: Some(9),
            zopfli_buffer: None,
            permissions: 0o664,
        },
        Compression::Max => ZipOptions {
            deflated: true,
            level: Some(73),
            zopfli_buffer: Some(65536),
            permissions: 0o664,
        },
    }
}

/// How directories are stored in an archive.
pub open spec fn zip_dir_options(compression: Compression) -> ZipOptions {
    ZipOptions { permissions: 0o775, ..zip_file_options(compression) }
}

/// A name is not the only one of its kind, or cannot stand in an archive.
#[derive(Clone, Copy, Debug, PartialEq, Eq, Structural)]
pub enum OutError {
    /// Something of that name has been written already.
    Duplicate,
    /// The name is not Unicode, as names in an archive have to be.
    NotUnicode,
}

/// The paths of the directories that a prefix leads through.
pub open spec fn wrap_dirs(steps: Seq<Seq<char>>) -> Seq<Seq<char>> {
    Seq::new(steps.len(), |i: int| slashed(steps.take(i)) + steps[i])
}

/// Where packs are written to, and which have been.
#[derive(Debug)]
pub struct Output {
    /// Whether files are kept that are up to date, if packs are written to a directory.
    dir: Option<bool>,
    /// What the paths of packs start with, if they are written to an archive.
    zip: Option<String>,
    packs: Vec<Vec<u8>>,
}

pub struct OutputView {
    pub dir: Option<bool>,
    pub zip: Option<Seq<char>>,
    pub packs: Set<Seq<u8>>,
}

/// The place of a file or a directory in an archive.
#[derive(Debug)]
pub enum ZipPart {
    /// Nothing is written to an archive.
    Nothing,
    /// Its name, or that of a directory that it is in, cannot stand in an archive.
    NotUnicode,
    /// Its path.
    Path(String),
}

pub enum ZipPartView {
    Nothing,
    NotUnicode,
    Path(Seq<char>),
}

impl View for ZipPart {
    type V = ZipPartView;

    open spec fn view(&self) -> ZipPartView {
        match self {
            ZipPart::Nothing => ZipPartView::Nothing,
            ZipPart::NotUnicode => ZipPartView::NotUnicode,
            ZipPart::Path(path) => ZipPartView::Path(path@),
        }
    }
}

/// The place of what has that name, given what its path starts with.
pub open spec fn zip_part(prefix: Option<Seq<char>>, name: Seq<u8>) -> ZipPartView {
    match prefix {
        None => ZipPartView::Nothing,
        Some(prefix) => if valid_utf8(name) {
            ZipPartView::Path(prefix + decode_utf8(name))
        } else {
            ZipPartView::NotUnicode
        },
    }
}

/// A directory that a pack, or a part of one, is written to.
#[derive(Debug)]
pub struct SubFolder {
    /// Whether it is written to a directory.
    dir: bool,
    zip: ZipPart,
    entries: Vec<Vec<u8>>,
}

pub struct SubFolderView {
    pub dir: bool,
    pub zip: ZipPartView,
    pub entries: Set<Seq<u8>>,
}

/// What happens to a file.
#[derive(Debug)]
pub struct FilePlan {
    /// Whether it is written to the output directory.
    pub write: bool,
    /// Its path in the archive.
    pub zip: ZipPart,
}

pub struct FilePlanView {
    pub write: bool,
    pub zip: ZipPartView,
}

impl View for FilePlan {
    type V = FilePlanView;

    open spec fn view(&self) -> FilePlanView {
        FilePlanView { write: self.write, zip: self.zip@ }
    }
}

impl View for Output {
    type V = OutputView;

    closed spec fn view(&self) -> OutputView {
        OutputView {
            dir: self.dir,
            zip: match self.zip {
                Some(prefix) => Some(prefix@),
                None => None,
            },
            packs: seqs(self.packs@).to_set(),
        }
    }
}

impl View for SubFolder {
    type V = SubFolderView;

    closed spec fn view(&self) -> SubFolderView {
        SubFolderView {
            dir: self.dir,
            zip: self.zip@,
            entries: seqs(self.entries@).to_set(),
        }
    }
}

/// The contents of each of a list of strings.
pub open spec fn strings(v: Seq<String>) -> Seq<Seq<char>> {
    v.map_values(|s: String| s@)
}

/// Whether a name is among others.
fn has_name(names: &Vec<Vec<u8>>, name: &[u8]) -> (r: bool)
    ensures
        r == seqs(names@).to_set().contains(name@),
{
    let mut i: usize = 0;
    while i < names.len()
        invariant
            i <= names@.len(),
            forall|j: int| 0 <= j < i ==> #[trigger] seqs(names@)[j] != name@,
        decreases names@.len() - i,
    {
        assert(seqs(names@)[i as int] == names@[i as int]@);
        if same_name(&names[i], name) {
            assert(seqs(names@).contains(name@));
            return true;
        }
        i += 1;
    }
    false
}

/// Adds a name to others.
fn add_name(names: &mut Vec<Vec<u8>>, name: &[u8])
    ensures
        seqs(final(names)@).to_set() == seqs(old(names)@).to_set().insert(name@),
{
    let ghost before = seqs(names@);
    let copy = copied(name, 0, name.len());
    assert(copy@ =~= name@);
    names.push(copy);
    proof {
        let after = seqs(names@);
        assert(after =~= before.push(name@));
        assert forall|x: Seq<u8>|
            after.to_set().contains(x) == before.to_set().insert(name@).contains(x) by {
            if before.contains(x) {
                let i = choose|i: int| 0 <= i < before.len() && before[i] == x;
                assert(after[i] == x);
            }
            assert(after[before.len() as int] == name@);
        }
        assert(after.to_set() =~= before.to_set().insert(name@));
    }
}

/// The place of what has that name, given what its path starts with.
fn zip_part_of(prefix: &[char], name: &[u8]) -> (r: ZipPart)
    ensures
        r@ == zip_part(Some(prefix@), name@),
{
    match from_utf8(name) {
        None => ZipPart::NotUnicode,
        Some(text) => {
            let mut path = String::new();
            push_chars(&mut path, prefix);
            push_chars(&mut path, &chars(text));
            assert(path@ =~= prefix@ + text@);
            ZipPart::Path(path)
        },
    }
}

/// The place of an entry of a directory.
fn zip_part_below(out: &Output, sub: &ZipPart, name: &[u8]) -> (r: ZipPart)
    ensures
        r@ == zip_below(out@, sub@, name@),
{
    match (&out.zip, sub) {
        (Some(_), ZipPart::Path(path)) => {
            let mut prefix = chars(path.as_str());
            prefix.push('/');
            zip_part_of(&prefix, name)
        },
        (Some(_), ZipPart::NotUnicode) => ZipPart::NotUnicode,
        _ => ZipPart::Nothing,
    }
}

/// What has to be done about what was in the place of a directory.
#[derive(Clone, Copy, Debug, PartialEq, Eq, Structural)]
pub enum OldDir {
    /// There is nothing: the directory has to be created.
    Create,
    /// The directory is there already.
    Keep,
    /// There is a file, which has to be removed.
    RemoveFile,
}

/// What has to be done about what is in the place of a directory.
pub fn old_dir(old: Option<FileType>) -> (r: OldDir)
    ensures
        r == (match old {
            None => OldDir::Create,
            Some(FileType::Dir) => OldDir::Keep,
            Some(FileType::File) => OldDir::RemoveFile,
        }),
{
    match old {
        None => OldDir::Create,
        Some(FileType::Dir) => OldDir::Keep,
        Some(FileType::File) => OldDir::RemoveFile,
    }
}

/// Whether what is in the place of a file is a directory, which has to be removed.
pub fn old_file(old: Option<FileType>) -> (r: bool)
    ensures
        r == (old == Some(FileType::Dir)),
{
    match old {
        Some(FileType::Dir) => true,
        _ => false,
    }
}

impl FilePlan {
    /// Whether nothing is done, as the file is up to date.
    pub fn skip(&self) -> (r: bool)
        ensures
            r == (!self@.write && self@.zip is Nothing),
    {
        match self.zip {
            ZipPart::Nothing => !self.write,
            _ => false,
        }
    }
}

impl Output {
    /// Prepares to write packs: to a directory, where files may be kept that are up to date, and to an
    /// archive, wrapped in directories there. Returns those directories too.
    pub fn setup(dir: Option<bool>, wrap_zip: Option<&str>) -> (r: (Output, Vec<String>))
        ensures
            r.0@.dir == dir,
            r.0@.packs == Set::<Seq<u8>>::empty(),
            match wrap_zip {
                None => r.0@.zip is None && r.1@.len() == 0,
                Some(path) => {
                    &&& r.0@.zip == Some(normalized_path(path@))
                    &&& strings(r.1@) == wrap_dirs(kept(seq![], steps_of(path@)))
                },
            },
    {
        let mut dirs: Vec<String> = Vec::new();
        let zip = match wrap_zip {
            None => None,
            Some(path) => {
                let done = kept_steps(path);
                let ghost steps = seqs(done@);
                let mut prefix: Vec<char> = Vec::new();
                let mut k: usize = 0;
                proof {
                    assert(steps.take(0) =~= seq![]);
                    assert(strings(dirs@) =~= wrap_dirs(steps).take(0));
                    assert(prefix@ =~= slashed(steps.take(0)));
                }
                while k < done.len()
                    invariant
                        steps == seqs(done@),
                        k <= done@.len(),
                        prefix@ == slashed(steps.take(k as int)),
                        strings(dirs@) == wrap_dirs(steps).take(k as int),
                    decreases done@.len() - k,
                {
                    let ghost before = strings(dirs@);
                    let mut dir = String::new();
                    push_chars(&mut dir, &prefix);
                    push_chars(&mut dir, &done[k]);
                    let ghost view = dir@;
                    proof {
                        let next = steps.take(k + 1);
                        assert(next.drop_last() =~= steps.take(k as int));
                        assert(next.last() == done@[k as int]@);
                        assert(view =~= wrap_dirs(steps)[k as int]);
                    }
                    prefix = chars(dir.as_str());
                    prefix.push('/');
                    dirs.push(dir);
                    proof {
                        assert(prefix@ =~= slashed(steps.take(k + 1)));
                        assert(strings(dirs@) =~= before.push(view));
                        assert(wrap_dirs(steps).take(k + 1) =~= before.push(view));
                    }
                    k += 1;
                }
                assert(steps.take(k as int) =~= steps);
                assert(wrap_dirs(steps).take(k as int) =~= wrap_dirs(steps));
                Some(normalize_relative_path(path))
            },
        };
        let r = Output { dir, zip, packs: Vec::new() };
        assert(r@.packs =~= Set::empty());
        (r, dirs)
    }

    /// Starts to write a pack. No two packs may have the same name.
    pub fn pack(&mut self, name: &[u8]) -> (r: Result<SubFolder, OutError>)
        ensures
            final(self)@.dir == old(self)@.dir,
            final(self)@.zip == old(self)@.zip,
            final(self)@.packs == old(self)@.packs.insert(name@),
            match r {
                Ok(sub) => !old(self)@.packs.contains(name@) && sub@ == (SubFolderView {
                    dir: old(self)@.dir is Some,
                    zip: zip_part(old(self)@.zip, name@),
                    entries: Set::empty(),
                }),
                Err(e) => old(self)@.packs.contains(name@) && e == OutError::Duplicate,
            },
    {
        if has_name(&self.packs, name) {
            assert(self@.packs.insert(name@) =~= self@.packs);
            return Err(OutError::Duplicate);
        }
        add_name(&mut self.packs, name);
        let zip = match &self.zip {
            None => ZipPart::Nothing,
            Some(prefix) => zip_part_of(&chars(prefix.as_str()), name),
        };
        let r = SubFolder { dir: self.dir.is_some(), zip, entries: Vec::new() };
        assert(r@.entries =~= Set::empty());
        Ok(r)
    }

    /// Those of the names in the output directory that are left of what was there before, if packs are
    /// written to one.
    pub fn finish(&self, names: Vec<Vec<u8>>) -> (r: Vec<Vec<u8>>)
        ensures
            seqs(r@) == (if self@.dir is Some {
                seqs(names@).filter(|n: Seq<u8>| !self@.packs.contains(n))
            } else {
                seq![]
            }),
    {
        if self.dir.is_none() {
            let r: Vec<Vec<u8>> = Vec::new();
            assert(seqs(r@) =~= seq![]);
            return r;
        }
        stale(&self.packs, names)
    }
}

/// The names that are not among those to keep.
fn stale(keep: &Vec<Vec<u8>>, names: Vec<Vec<u8>>) -> (r: Vec<Vec<u8>>)
    ensures
        seqs(r@) == seqs(names@).filter(|n: Seq<u8>| !seqs(keep@).to_set().contains(n)),
{
    let ghost p = |n: Seq<u8>| !seqs(keep@).to_set().contains(n);
    let ghost all = names@;
    let mut r: Vec<Vec<u8>> = Vec::new();
    proof {
        reveal(Seq::filter);
        assert(seqs(all).take(0) =~= seq![]);
        assert(seqs(r@) =~= seqs(all).take(0).filter(p));
    }
    for name in it: names
        invariant
            it.seq() == all,
            p == |n: Seq<u8>| !seqs(keep@).to_set().contains(n),
            seqs(r@) == seqs(all).take(it.index() as int).filter(p),
    {
        let ghost before = seqs(r@);
        let ghost view = name@;
        proof {
            reveal(Seq::filter);
            let next = seqs(all).take(it.index() + 1);
            assert(next.drop_last() =~= seqs(all).take(it.index() as int));
            assert(next.last() == view);
        }
        if !has_name(keep, &name) {
            r.push(name);
            assert(seqs(r@) =~= before.push(view));
        }
    }
    assert(seqs(all).take(all.len() as int) =~= seqs(all));
    r
}

/// The place of an entry of a directory, given that of the directory.
pub open spec fn zip_below(out: OutputView, dir: ZipPartView, name: Seq<u8>) -> ZipPartView {
    match (out.zip, dir) {
        (Some(_), ZipPartView::Path(path)) => zip_part(Some(path.push('/')), name),
        (Some(_), part) => part,
        (None, _) => ZipPartView::Nothing,
    }
}

/// The place of what the names lead to, the first of them that of a pack.
pub open spec fn zip_place(out: OutputView, names: Seq<Seq<u8>>) -> ZipPartView
    decreases names.len(),
{
    if names.len() <= 1 {
        zip_part(out.zip, names[0])
    } else {
        zip_below(out, zip_place(out, names.drop_last()), names.last())
    }
}

/// The texts of names.
pub open spec fn decoded(names: Seq<Seq<u8>>) -> Seq<Seq<char>> {
    names.map_values(|n: Seq<u8>| decode_utf8(n))
}

/// The path of a file in an archive is made of the names that lead to it, with a separator between
/// each two, behind what all paths start with.
pub proof fn law_zip_place(out: OutputView, names: Seq<Seq<u8>>)
    requires
        names.len() > 0,
        out.zip is Some,
        forall|i: int| 0 <= i < names.len() ==> valid_utf8(#[trigger] names[i]),
    ensures
        zip_place(out, names) == ZipPartView::Path(
            out.zip->0 + slashed(decoded(names.drop_last())) + decode_utf8(names.last()),
        ),
    decreases names.len(),
{
    let above = names.drop_last();
    let texts = decoded(above);
    let path = out.zip->0 + slashed(texts) + decode_utf8(names.last());
    assert(valid_utf8(names[names.len() - 1]));
    if names.len() == 1 {
        assert(texts =~= seq![]);
        assert(path =~= out.zip->0 + decode_utf8(names[0]));
    } else {
        law_zip_place(out, above);
        assert(texts.drop_last() =~= decoded(above.drop_last()));
        assert(texts.last() == decode_utf8(above.last()));
        let prefix = out.zip->0 + slashed(texts.drop_last()) + texts.last();
        assert(prefix.push('/') + decode_utf8(names.last()) =~= path);
    }
}

/// What was built before is up to date: it was modified later than the last of its sources.
pub open spec fn is_current(source: Option<i128>, built: Option<i128>) -> bool {
    source matches Some(s) && built matches Some(b) && s < b
}

/// What happens to a file.
pub open spec fn file_plan(
    out: OutputView,
    sub: SubFolderView,
    name: Seq<u8>,
    source: Option<i128>,
    built: Option<i128>,
) -> FilePlanView {
    FilePlanView {
        write: sub.dir && match out.dir {
            None => false,
            Some(cache) => !(cache && is_current(source, built)),
        },
        zip: zip_below(out, sub.zip, name),
    }
}

/// A file that is planned has its place in the archive, if packs are written to one: where the names lead
/// that lead to it. When its source and what was built before were modified makes no difference to that,
/// nor does whether files are kept.
pub proof fn law_plan_zip(
    out: OutputView,
    sub: SubFolderView,
    dirs: Seq<Seq<u8>>,
    name: Seq<u8>,
    source: Option<i128>,
    built: Option<i128>,
)
    requires
        dirs.len() > 0,
        sub.zip == zip_place(out, dirs),
    ensures
        file_plan(out, sub, name, source, built).zip == zip_place(out, dirs.push(name)),
        out.zip is None ==> file_plan(out, sub, name, source, built).zip is Nothing,
        out.zip is Some && (forall|i: int| 0 <= i < dirs.len() ==> valid_utf8(#[trigger] dirs[i]))
            && valid_utf8(name) ==> file_plan(out, sub, name, source, built).zip
            == ZipPartView::Path(out.zip->0 + slashed(decoded(dirs)) + decode_utf8(name)),
        out.zip is Some && !((forall|i: int| 0 <= i < dirs.len() ==> valid_utf8(#[trigger] dirs[i]))
            && valid_utf8(name)) ==> file_plan(out, sub, name, source, built).zip is NotUnicode,
{
    let names = dirs.push(name);
    assert(names.drop_last() =~= dirs);
    if out.zip is Some {
        if forall|i: int| 0 <= i < names.len() ==> valid_utf8(#[trigger] names[i]) {
            law_zip_place(out, names);
            assert(valid_utf8(names[dirs.len() as int]));
            assert forall|i: int| 0 <= i < dirs.len() implies valid_utf8(#[trigger] dirs[i]) by {
                assert(names[i] == dirs[i]);
            }
        } else {
            let i = choose|i: int| 0 <= i < names.len() && !valid_utf8(#[trigger] names[i]);
            law_zip_broken(out, names, i);
            if i < dirs.len() {
                assert(dirs[i] == names[i]);
            }
        }
    }
}

/// Nothing has a place in an archive that a name leads to that is not Unicode.
pub proof fn law_zip_broken(out: OutputView, names: Seq<Seq<u8>>, i: int)
    requires
        0 <= i < names.len(),
        out.zip is Some,
        !valid_utf8(names[i]),
    ensures
        zip_place(out, names) is NotUnicode,
    decreases names.len(),
{
    if i < names.len() - 1 {
        assert(names.drop_last()[i] == names[i]);
        law_zip_broken(out, names.drop_last(), i);
    } else if i > 0 {
        law_zip_all(out, names.drop_last());
    }
}

/// All that is written has a place in an archive, or cannot have one, if packs are written to one, and
/// none if they are not.
pub proof fn law_zip_all(out: OutputView, names: Seq<Seq<u8>>)
    ensures
        zip_place(out, names) is Nothing <==> out.zip is None,
    decreases names.len(),
{
    if names.len() > 1 {
        law_zip_all(out, names.drop_last());
    }
}

/// A file is written to a directory that is written to, unless files are kept and the one that was built
/// before is later than the last of its sources. Of a time that is not known nothing is known to be later.
pub proof fn law_plan_write(
    out: OutputView,
    sub: SubFolderView,
    name: Seq<u8>,
    source: Option<i128>,
    built: Option<i128>,
)
    ensures
        !sub.dir || out.dir is None ==> !file_plan(out, sub, name, source, built).write,
        sub.dir && out.dir == Some(false) ==> file_plan(out, sub, name, source, built).write,
        sub.dir && out.dir == Some(true) && (source is None || built is None) ==> file_plan(
            out,
            sub,
            name,
            source,
            built,
        ).write,
        sub.dir && out.dir == Some(true) && source is Some && built is Some ==> (file_plan(
            out,
            sub,
            name,
            source,
            built,
        ).write <==> built->0 <= source->0),
{
}

/// Each step has one separator behind it.
pub proof fn law_slashed(steps: Seq<Seq<char>>, step: Seq<char>)
    ensures
        slashed(seq![]) == Seq::<char>::empty(),
        slashed(steps.push(step)) == slashed(steps) + step + seq!['/'],
{
    assert(steps.push(step).drop_last() =~= steps);
}

impl SubFolder {
    /// Whether the directory is written to the output directory.
    pub fn has_dir(&self) -> (r: bool)
        ensures
            r == self@.dir,
    {
        self.dir
    }

    /// The path of the directory in the archive, if it is written to one.
    pub fn zip_dir(&self) -> (r: Result<Option<String>, OutError>)
        ensures
            match self@.zip {
                ZipPartView::Nothing => r == Ok::<Option<String>, OutError>(None),
                ZipPartView::NotUnicode => r == Err::<Option<String>, OutError>(
                    OutError::NotUnicode,
                ),
                ZipPartView::Path(path) => r matches Ok(Some(p)) && p@ == path,
            },
    {
        match &self.zip {
            ZipPart::Nothing => Ok(None),
            ZipPart::NotUnicode => Err(OutError::NotUnicode),
            ZipPart::Path(path) => Ok(Some(path.clone())),
        }
    }

    /// Starts to write a directory in this one. No two entries of a directory may have the same name.
    pub fn dir(&mut self, out: &Output, name: &[u8]) -> (r: Result<SubFolder, OutError>)
        ensures
            final(self)@.dir == old(self)@.dir,
            final(self)@.zip == old(self)@.zip,
            final(self)@.entries == old(self)@.entries.insert(name@),
            match r {
                Ok(sub) => !old(self)@.entries.contains(name@) && sub@ == (SubFolderView {
                    dir: old(self)@.dir,
                    zip: zip_below(out@, old(self)@.zip, name@),
                    entries: Set::empty(),
                }),
                Err(e) => old(self)@.entries.contains(name@) && e == OutError::Duplicate,
            },
    {
        if has_name(&self.entries, name) {
            assert(self@.entries.insert(name@) =~= self@.entries);
            return Err(OutError::Duplicate);
        }
        add_name(&mut self.entries, name);
        let zip = zip_part_below(out, &self.zip, name);
        let r = SubFolder { dir: self.dir, zip, entries: Vec::new() };
        assert(r@.entries =~= Set::empty());
        Ok(r)
    }

    /// Says what happens to a file in this directory, given when the last of its sources and what was
    /// built of them before were modified. No two entries of a directory may have the same name.
    pub fn file(
        &mut self,
        out: &Output,
        name: &[u8],
        source: Option<i128>,
        built: Option<i128>,
    ) -> (r: Result<FilePlan, OutError>)
        ensures
            final(self)@.dir == old(self)@.dir,
            final(self)@.zip == old(self)@.zip,
            final(self)@.entries == old(self)@.entries.insert(name@),
            match r {
                Ok(plan) => !old(self)@.entries.contains(name@) && plan@ == file_plan(
                    out@,
                    old(self)@,
                    name@,
                    source,
                    built,
                ),
                Err(e) => old(self)@.entries.contains(name@) && e == OutError::Duplicate,
            },
    {
        if has_name(&self.entries, name) {
            assert(self@.entries.insert(name@) =~= self@.entries);
            return Err(OutError::Duplicate);
        }
        add_name(&mut self.entries, name);
        let current = match (source, built) {
            (Some(s), Some(b)) => s < b,
            _ => false,
        };
        let write = self.dir && match out.dir {
            None => false,
            Some(cache) => !(cache && current),
        };
        let zip = zip_part_below(out, &self.zip, name);
        Ok(FilePlan { write, zip })
    }

    /// Those of the names in the directory that are left of what was there before, if it is written to
    /// the output directory.
    pub fn finish(&self, names: Vec<Vec<u8>>) -> (r: Vec<Vec<u8>>)
        ensures
            seqs(r@) == (if self@.dir {
                seqs(names@).filter(|n: Seq<u8>| !self@.entries.contains(n))
            } else {
                seq![]
            }),
    {
        if !self.dir {
            let r: Vec<Vec<u8>> = Vec::new();
            assert(seqs(r@) =~= seq![]);
            return r;
        }
        stale(&self.entries, names)
    }
}

/// How files are stored in an archive.
pub fn file_options(compression: Compression) -> (r: ZipOptions)
    ensures
        r == zip_file_options(compression),
{
    ZipOptions {
        deflated: match compression {
            Compression::Off => false,
            Compression::Normal | Compression::Max => true,
        },
        level: match compression {
            Compression::Off => None,
            Compression::Normal => Some(9),
            Compression::Max => Some(73),
        },
        zopfli_buffer: match compression {
            Compression::Off | Compression::Normal => None,
            Compression::Max => Some(65536),
        },
        permissions: 0o664,
    }
}

/// How directories are stored in an archive.
pub fn dir_options(compression: Compression) -> (r: ZipOptions)
    ensures
        r == zip_dir_options(compression),
{
    let file = file_options(compression);
    ZipOptions {
        deflated: file.deflated,
        level: file.level,
        zopfli_buffer: file.zopfli_buffer,
        permissions: 0o775,
    }
}

/// The names of a path are what stands between its separators, be they `/` or `\`.
pub proof fn law_pieces(first: Seq<char>, separator: char, rest: Seq<char>)
    requires
        forall|i: int| 0 <= i < first.len() ==> #[trigger] first[i] != '/' && first[i] != '\\',
        separator == '/' || separator == '\\',
    ensures
        pieces(first) == seq![first],
        pieces(first + seq![separator] + rest) == seq![first] + pieces(rest),
{
    let path = first + seq![separator] + rest;
    let p = |c: char| !is_separator(c);
    let n = first.len() as int;
    assert forall|i: int| 0 <= i < n implies p(#[trigger] path[i]) by {
        assert(path[i] == first[i]);
        assert(first[i] != '/' && first[i] != '\\');
    }
    assert forall|i: int| 0 <= i < n implies p(#[trigger] first[i]) by {}
    assert(path[n] == separator);
    lemma_run_is(path, p, first.len());
    lemma_run_is(first, p, first.len());
    assert(path.take(n) =~= first);
    assert(path.skip(n + 1) =~= rest);
}

/// Of the names of a path those are left out that lead nowhere: empty ones, and `.`.
pub proof fn law_steps(first: Seq<char>, separator: char, rest: Seq<char>)
    requires
        forall|i: int| 0 <= i < first.len() ==> #[trigger] first[i] != '/' && first[i] != '\\',
        separator == '/' || separator == '\\',
    ensures
        steps_of(first + seq![separator] + rest) == (if first.len() == 0 || (first.len() == 1
            && first[0] == '.') {
            seq![]
        } else {
            seq![first]
        }) + steps_of(rest),
        steps_of(first) == (if first.len() == 0 || (first.len() == 1 && first[0] == '.') {
            seq![]
        } else {
            seq![first]
        }),
{
    let p = |s: Seq<char>| is_step(s);
    law_pieces(first, separator, rest);
    lemma_filter_first(first, pieces(rest), p);
    lemma_filter_first(first, seq![], p);
    reveal(Seq::filter);
    assert(seq![first] + Seq::<Seq<char>>::empty() =~= seq![first]);
    assert(Seq::<Seq<char>>::empty().filter(p) =~= seq![]);
    if first.len() == 1 && first[0] == '.' {
        assert(first =~= seq!['.']);
    }
    let own = if p(first) {
        seq![first]
    } else {
        seq![]
    };
    assert(own + Seq::<Seq<char>>::empty() =~= own);
}

/// `..` takes back the step before it, if there is one. What comes right behind it is a step, whatever it
/// is.
pub proof fn law_back(done: Seq<Seq<char>>, step: Seq<char>, next: Seq<char>, rest: Seq<Seq<char>>)
    ensures
        kept(done.push(step), seq![seq!['.', '.'], next] + rest) == kept(done.push(next), rest),
        kept(seq![], seq![seq!['.', '.'], next] + rest) == kept(seq![next], rest),
        kept(done.push(step), seq![seq!['.', '.']]) == done,
        kept(seq![], seq![seq!['.', '.']]) == Seq::<Seq<char>>::empty(),
        kept(done, seq![]) == done,
        step != seq!['.', '.'] ==> kept(done, seq![step] + rest) == kept(done.push(step), rest),
{
    let none = Seq::<Seq<char>>::empty();
    let all = seq![seq!['.', '.'], next] + rest;
    assert(all[0] == seq!['.', '.'] && all[1] == next);
    assert(all.skip(2) =~= rest);
    assert(done.push(step).drop_last() =~= done);
    assert(none.push(next) =~= seq![next]);
    let one = seq![step] + rest;
    assert(one[0] == step);
    assert(one.skip(1) =~= rest);
}

/// A directory that a path starts with is at the start of all behind it, with a separator in between.
pub proof fn law_wrap_dirs(steps: Seq<Seq<char>>, i: int)
    requires
        0 <= i < steps.len(),
    ensures
        wrap_dirs(steps).len() == steps.len(),
        wrap_dirs(steps)[i] + seq!['/'] == slashed(steps.take(i + 1)),
{
    assert(steps.take(i + 1) =~= steps.take(i).push(steps[i]));
    law_slashed(steps.take(i), steps[i]);
}

/// Where a directory is in an archive: packs behind what all paths start with, and everything else behind
/// the directory that it is in.
pub proof fn law_dir_zip(out: OutputView, dirs: Seq<Seq<u8>>, name: Seq<u8>)
    ensures
        zip_part(out.zip, name) == zip_place(out, seq![name]),
        dirs.len() > 0 ==> zip_below(out, zip_place(out, dirs), name) == zip_place(
            out,
            dirs.push(name),
        ),
{
    assert(dirs.push(name).drop_last() =~= dirs);
}

} // verus!
