//! Preprocessing a source file: replacing the commands in it by the files that they name.
//!
//! The preprocessor does not touch the file system. It says what it has to know next, and is told.
//! Files go by numbers that whoever answers it gives out.
use crate::file::{later, latest, FileId};
use crate::text::{chars, lines, lines_of, push_chars, reversed, seqs, string};
use crate::toml::line::{line_of, read_line, Line, LineView};
use vstd::prelude::*;

verus! {

/// A file that is being read, with the lines that are left of it and the files to read before them.
#[verifier::ext_equal]
pub struct SourceView {
    pub path: usize,
    pub id: FileId,
    pub lines: Seq<Seq<char>>,
    pub includes: Seq<usize>,
}

/// The state of a preprocessor.
#[verifier::ext_equal]
pub struct PreprocessView {
    /// The file that is being read, behind those that it is read into.
    pub files: Seq<SourceView>,
    /// The text so far.
    pub toml: Seq<char>,
    /// When the last of the files was modified, if that is known of all of them.
    pub modified: Option<i128>,
}

/// What a preprocessor has to know next.
#[verifier::ext_equal]
pub enum NeedView {
    /// The contents of a file.
    File(usize),
    /// The files that match a glob, from the directory that a file is in.
    Glob(usize, Seq<char>),
    /// Nothing more.
    Done,
}

/// Why a file cannot be preprocessed, and which.
#[verifier::ext_equal]
pub enum TomlErrorView {
    /// A command has no name.
    EmptyCommand(usize),
    /// A command does not exist.
    UnknownCommand(Seq<char>, usize),
}

/// A file of which nothing has been read.
pub open spec fn opened(path: usize, id: FileId, text: Seq<char>) -> SourceView {
    SourceView { path, id, lines: lines_of(text), includes: seq![] }
}

/// The state in which a preprocessor starts.
pub open spec fn started(file: SourceView, modified: Option<i128>) -> PreprocessView {
    PreprocessView { files: seq![file], toml: seq![], modified }
}

impl PreprocessView {
    /// The state with another file in place of the one that is being read.
    pub open spec fn with_file(self, file: SourceView) -> PreprocessView {
        PreprocessView { files: self.files.drop_last().push(file), ..self }
    }
}

/// The state, and what has to be known, once all that can be done without knowing more has been done.
pub open spec fn advanced(s: PreprocessView) -> (PreprocessView, Result<NeedView, TomlErrorView>)
    decreases
            s.files.len(),
            (if s.files.len() > 0 {
                s.files.last().lines.len()
            } else {
                0
            }),
{
    if s.files.len() == 0 {
        (s, Ok(NeedView::Done))
    } else {
        let file = s.files.last();
        if file.includes.len() > 0 {
            let rest = SourceView { includes: file.includes.skip(1), ..file };
            (s.with_file(rest), Ok(NeedView::File(file.includes[0])))
        } else if file.lines.len() == 0 {
            advanced(PreprocessView { files: s.files.drop_last(), ..s })
        } else {
            let rest = SourceView { lines: file.lines.skip(1), ..file };
            match line_of(file.lines[0]) {
                LineView::Text(text) => {
                    let toml = s.toml + text + seq!['\n'];
                    advanced(PreprocessView { toml, ..s.with_file(rest) })
                },
                LineView::Include(glob) => (
                    s.with_file(rest),
                    Ok(NeedView::Glob(file.path, glob)),
                ),
                LineView::Unknown(name) => (
                    s.with_file(rest),
                    Err(TomlErrorView::UnknownCommand(name, file.path)),
                ),
                LineView::Empty => (
                    s.with_file(rest),
                    Err(TomlErrorView::EmptyCommand(file.path)),
                ),
            }
        }
    }
}

/// The file is one of those that are being read.
pub open spec fn is_open(files: Seq<SourceView>, id: FileId) -> bool {
    exists|i: int| 0 <= i < files.len() && (#[trigger] files[i]).id == id
}

/// The state once the contents of a file are known, or `None` if it would be read into itself.
pub open spec fn after_file(
    s: PreprocessView,
    file: SourceView,
    modified: Option<i128>,
) -> Option<PreprocessView> {
    if is_open(s.files, file.id) {
        None
    } else {
        Some(
            PreprocessView {
                files: s.files.push(file),
                modified: latest(s.modified, modified),
                ..s
            },
        )
    }
}

/// The state once the files that match a glob are known.
pub open spec fn after_glob(s: PreprocessView, paths: Seq<usize>) -> PreprocessView {
    s.with_file(SourceView { includes: paths, ..s.files.last() })
}

/// A file that is being read. The lines and the files to read before them are kept in reverse.
#[derive(Debug)]
struct Source {
    path: usize,
    id: FileId,
    lines: Vec<Vec<char>>,
    includes: Vec<usize>,
}

impl View for Source {
    type V = SourceView;

    closed spec fn view(&self) -> SourceView {
        SourceView {
            path: self.path,
            id: self.id,
            lines: seqs(self.lines@).reverse(),
            includes: self.includes@.reverse(),
        }
    }
}

/// A file that is being preprocessed.
#[derive(Debug)]
pub struct Preprocess {
    files: Vec<Source>,
    toml: String,
    modified: Option<i128>,
}

impl View for Preprocess {
    type V = PreprocessView;

    closed spec fn view(&self) -> PreprocessView {
        PreprocessView {
            files: self.files@.map_values(|f: Source| f@),
            toml: self.toml@,
            modified: self.modified,
        }
    }
}

/// What a preprocessor has to know next.
#[derive(Debug)]
pub enum Need {
    /// The contents of a file, for [`Preprocess::file`].
    File(usize),
    /// The files that match a glob, from the directory that a file is in, for [`Preprocess::glob`].
    Glob(usize, String),
    /// Nothing more: it is time for [`Preprocess::finish`].
    Done,
}

impl View for Need {
    type V = NeedView;

    open spec fn view(&self) -> NeedView {
        match self {
            Need::File(path) => NeedView::File(*path),
            Need::Glob(path, glob) => NeedView::Glob(*path, glob@),
            Need::Done => NeedView::Done,
        }
    }
}

/// Why a file cannot be preprocessed, and which.
#[derive(Debug)]
pub enum TomlError {
    /// A command has no name.
    EmptyCommand(usize),
    /// A command does not exist.
    UnknownCommand(String, usize),
}

impl View for TomlError {
    type V = TomlErrorView;

    open spec fn view(&self) -> TomlErrorView {
        match self {
            TomlError::EmptyCommand(path) => TomlErrorView::EmptyCommand(*path),
            TomlError::UnknownCommand(name, path) => TomlErrorView::UnknownCommand(name@, *path),
        }
    }
}

/// What has to be known, or why nothing can.
pub open spec fn need_view(r: Result<Need, TomlError>) -> Result<NeedView, TomlErrorView> {
    match r {
        Ok(need) => Ok(need@),
        Err(e) => Err(e@),
    }
}

/// Starts to preprocess a file of which the contents are known.
pub fn load_and_preprocess_toml(
    path: usize,
    id: FileId,
    text: &str,
    modified: Option<i128>,
) -> (r: Preprocess)
    ensures
        r@ == started(opened(path, id, text@), modified),
{
    let mut files: Vec<Source> = Vec::new();
    files.push(open(path, id, text));
    let r = Preprocess { files, toml: String::new(), modified };
    proof {
        assert(r@.files =~= seq![opened(path, id, text@)]);
        assert(r@.toml =~= seq![]);
    }
    r
}

fn open(path: usize, id: FileId, text: &str) -> (r: Source)
    ensures
        r@ == opened(path, id, text@),
{
    let lines = lines(&chars(text));
    let ghost views = seqs(lines@);
    let lines = reversed(lines);
    let r = Source { path, id, lines, includes: Vec::new() };
    proof {
        assert(r@.lines =~= views);
        assert(r@.includes =~= seq![]);
    }
    r
}

impl Preprocess {
    /// Goes on as far as it is known how to, and says what has to be known next.
    pub fn need(&mut self) -> (r: Result<Need, TomlError>)
        ensures
            (final(self)@, need_view(r)) == advanced(old(self)@),
    {
        loop
            invariant
                advanced(self@) == advanced(old(self)@),
            decreases
                    self@.files.len(),
                    (if self@.files.len() > 0 {
                        self@.files.last().lines.len()
                    } else {
                        0
                    }),
        {
            let ghost s = self@;
            let mut file = match self.files.pop() {
                Some(file) => file,
                None => {
                    assert(self@ =~= s);
                    return Ok(Need::Done);
                },
            };
            let ghost view = file@;
            proof {
                assert(s.files.last() == view);
                assert(self@.files =~= s.files.drop_last());
            }
            if let Some(path) = file.includes.pop() {
                self.files.push(file);
                proof {
                    assert(file@.includes =~= view.includes.skip(1));
                    assert(self@ =~= s.with_file(file@));
                }
                return Ok(Need::File(path));
            }
            if let Some(line) = file.lines.pop() {
                let ghost text = line@;
                let path = file.path;
                self.files.push(file);
                proof {
                    assert(text == view.lines[0]);
                    assert(file@.lines =~= view.lines.skip(1));
                    assert(self@ =~= s.with_file(file@));
                    assert(self@.files.last() == file@);
                }
                match read_line(&line) {
                    Line::Text(text) => {
                        push_chars(&mut self.toml, &text);
                        self.toml.push('\n');
                        proof {
                            assert(self@.toml =~= s.toml + text@ + seq!['\n']);
                            assert(self@ =~= (PreprocessView {
                                toml: s.toml + text@ + seq!['\n'],
                                ..s.with_file(file@)
                            }));
                        }
                    },
                    Line::Include(glob) => {
                        return Ok(Need::Glob(path, string(&glob)));
                    },
                    Line::Unknown(name) => {
                        return Err(TomlError::UnknownCommand(string(&name), path));
                    },
                    Line::Empty => {
                        return Err(TomlError::EmptyCommand(path));
                    },
                }
            } else {
                assert(self@ =~= (PreprocessView { files: s.files.drop_last(), ..s }));
            }
        }
    }

    /// Tells the preprocessor the contents of the file that it asked for. Returns whether the file may
    /// be read; it may not be read into itself.
    pub fn file(&mut self, path: usize, id: FileId, text: &str, modified: Option<i128>) -> (r: bool)
        ensures
            match after_file(old(self)@, opened(path, id, text@), modified) {
                Some(s) => r && final(self)@ == s,
                None => !r && final(self)@ == old(self)@,
            },
    {
        let ghost s = self@;
        if self.reads(id) {
            return false;
        }
        self.files.push(open(path, id, text));
        self.modified = later(self.modified, modified);
        assert(self@.files =~= s.files.push(opened(path, id, text@)));
        true
    }

    fn reads(&self, id: FileId) -> (r: bool)
        ensures
            r == is_open(self@.files, id),
    {
        let mut i: usize = 0;
        while i < self.files.len()
            invariant
                i <= self.files@.len(),
                forall|j: int| 0 <= j < i ==> (#[trigger] self@.files[j]).id != id,
            decreases self.files@.len() - i,
        {
            assert(self@.files[i as int] == self.files@[i as int]@);
            if self.files[i].id == id {
                return true;
            }
            i += 1;
        }
        false
    }

    /// Tells the preprocessor the files that match the glob that it asked for.
    pub fn glob(&mut self, paths: Vec<usize>)
        requires
            old(self)@.files.len() > 0,
        ensures
            final(self)@ == after_glob(old(self)@, paths@),
    {
        let ghost s = self@;
        let ghost all = paths@;
        if let Some(file) = self.files.pop() {
            assert(file@ == s.files.last());
            let paths = reversed(paths);
            let file = Source { path: file.path, id: file.id, lines: file.lines, includes: paths };
            self.files.push(file);
            proof {
                assert(file@.includes =~= all);
                assert(self@.files =~= s.files.drop_last().push(file@));
            }
        }
    }

    /// The text that came of it, and when it was last modified.
    pub fn finish(self) -> (r: (String, Option<i128>))
        ensures
            r.0@ == self@.toml,
            r.1 == self@.modified,
    {
        (self.toml, self.modified)
    }
}

/// A command that has no name or does not exist is an error, with its name and the file that it is in.
pub proof fn law_command_errors(s: PreprocessView, name: Seq<char>)
    requires
        s.files.len() > 0,
        s.files.last().includes.len() == 0,
        s.files.last().lines.len() > 0,
    ensures
        line_of(s.files.last().lines[0]) == LineView::Unknown(name) ==> advanced(s).1 == Err::<
            NeedView,
            TomlErrorView,
        >(TomlErrorView::UnknownCommand(name, s.files.last().path)),
        line_of(s.files.last().lines[0]) == LineView::Empty ==> advanced(s).1 == Err::<
            NeedView,
            TomlErrorView,
        >(TomlErrorView::EmptyCommand(s.files.last().path)),
{
}

} // verus!
