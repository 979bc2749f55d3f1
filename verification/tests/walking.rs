use build_content_pack::file::{FileId, FileType};
use build_content_pack::glob::lex::GlobError;
use build_content_pack::glob::walk::{glob_files_relative, Request, Walk, WalkError};
use std::collections::BTreeMap;

type Path = Vec<Vec<u8>>;

/// Files and directories by their paths, each with an id. Directories have no text.
struct Tree {
    files: BTreeMap<Path, (FileType, u64)>,
}

fn path(text: &str) -> Path {
    text.split('/').filter(|s| !s.is_empty()).map(|s| s.as_bytes().to_vec()).collect()
}

fn id(n: u64) -> FileId {
    FileId::Inode { device_id: 1, inode_number: n }
}

impl Tree {
    fn new(files: &[&str]) -> Tree {
        let mut tree = Tree { files: BTreeMap::new() };
        for file in files {
            let names = path(file);
            for i in 1..names.len() {
                let n = tree.files.len() as u64 + 10;
                tree.files.entry(names[..i].to_vec()).or_insert((FileType::Dir, n));
            }
            let n = tree.files.len() as u64 + 10;
            tree.files.insert(names, (FileType::File, n));
        }
        tree
    }

    fn names(&self, dir: &Path) -> Vec<Vec<u8>> {
        let mut names: Vec<Vec<u8>> = self
            .files
            .keys()
            .filter(|p| p.len() == dir.len() + 1 && p.starts_with(dir))
            .map(|p| p[dir.len()].clone())
            .collect();
        names.reverse();
        names
    }

    fn id(&self, dir: &Path) -> FileId {
        if dir.is_empty() { id(1) } else { id(self.files[dir].1) }
    }

    fn walk(&self, glob: &str) -> (Result<Vec<String>, WalkError>, usize) {
        let mut walk: Walk = glob_files_relative(glob).expect("the glob is wrong");
        let mut requests = 0;
        loop {
            requests += 1;
            match walk.request() {
                Request::Read(dir) => walk.read(self.names(&dir)),
                Request::Kind(file) => walk.kind(self.files[&file].0),
                Request::Enter(dir) => {
                    if let Err(e) = walk.enter(self.id(&dir), self.names(&dir)) {
                        return (Err(e), requests);
                    }
                },
                Request::Done => break,
            }
        }
        let found = walk.finish().map(|paths| {
            paths.iter().map(|p| text(p)).collect::<Vec<String>>()
        });
        (found, requests)
    }

    fn find(&self, glob: &str) -> Vec<String> {
        self.walk(glob).0.expect("the walk has failed")
    }
}

fn text(path: &Path) -> String {
    let names: Vec<String> = path.iter().map(|n| String::from_utf8(n.clone()).unwrap()).collect();
    names.join("/")
}

fn tree() -> Tree {
    Tree::new(&[
        "top.toml",
        "other.txt",
        "data/one.toml",
        "data/two.toml",
        "data/deep/three.toml",
        "data/deep/er/four.toml",
        "data/deep/er/four.txt",
        "x/data/deep/five.toml",
    ])
}

#[test]
fn fixed_paths() {
    assert_eq!(tree().find("top.toml"), ["top.toml"]);
    assert_eq!(tree().find("DATA/One.TOML"), ["data/one.toml"]);
    assert_eq!(tree().find("data/*.toml"), ["data/one.toml", "data/two.toml"]);
    assert_eq!(tree().find("*/*/*.toml"), ["data/deep/three.toml"]);
    assert!(tree().find("data/*.md").is_empty());
    // Directories are not files.
    assert!(tree().find("dat*").is_empty());
    assert!(tree().find("data/deep/*").iter().all(|p| p == "data/deep/three.toml"));
}

#[test]
fn floating_paths() {
    assert_eq!(
        tree().find("**/*.toml"),
        [
            "data/deep/er/four.toml",
            "data/deep/three.toml",
            "data/one.toml",
            "data/two.toml",
            "top.toml",
            "x/data/deep/five.toml",
        ],
    );
    assert_eq!(
        tree().find("**/deep/*.toml"),
        ["data/deep/three.toml", "x/data/deep/five.toml"],
    );
    assert_eq!(
        tree().find("data/**/four.*"),
        ["data/deep/er/four.toml", "data/deep/er/four.txt"],
    );
    assert_eq!(
        tree().find("**/data/**/*.toml"),
        [
            "data/deep/er/four.toml",
            "data/deep/three.toml",
            "data/one.toml",
            "data/two.toml",
            "x/data/deep/five.toml",
        ],
    );
    assert_eq!(tree().find("x/**"), ["x/data/deep/five.toml"]);
    assert_eq!(tree().find("**").len(), 8);
    assert!(tree().find("**/deep/er").is_empty());
}

#[test]
fn a_path_that_starts_over() {
    // The first `a` is not the one that `a/b` goes on from.
    let tree = Tree::new(&["a/a/b", "a/c/a/b", "a/a/a/a/b", "a/b/c"]);
    assert_eq!(tree.find("**/a/b"), ["a/a/a/a/b", "a/a/b", "a/c/a/b"]);
    assert_eq!(tree.find("**/a/**/a/b"), ["a/a/a/a/b", "a/a/b", "a/c/a/b"]);
    assert_eq!(tree.find("**/a/a/**/a/b"), ["a/a/a/a/b"]);
    assert_eq!(tree.find("**/a/*/c"), ["a/b/c"]);
    assert_eq!(tree.find("*/**/a/*/c"), Vec::<String>::new());
    assert_eq!(tree.find("**/b/c"), ["a/b/c"]);
}

#[test]
fn every_match_and_no_other() {
    let tree = tree();
    let all: Vec<String> = tree.find("**");
    for glob in ["*/*", "**/*o*", "**/d*/*", "data/**/er/*", "?op.toml", "**/deep/**/*.t*"] {
        let found = tree.find(glob);
        let mut sorted = found.clone();
        sorted.sort();
        assert_eq!(found, sorted, "{glob}");
        sorted.dedup();
        assert_eq!(found.len(), sorted.len(), "{glob}");
        assert!(found.iter().all(|p| all.contains(p)), "{glob}");
    }
    assert_eq!(tree.find("**/d*/*").len(), 4);
    assert_eq!(tree.find("**/*o*").len(), 8);
}

#[test]
fn paths_are_ordered_by_name() {
    let tree = Tree::new(&["a/b", "a-b", "a/c/d", "a.b"]);
    // A directory's entries stand together, before names that only go on from the directory's.
    assert_eq!(tree.find("**"), ["a/b", "a/c/d", "a-b", "a.b"]);
}

#[test]
fn a_glob_without_wildcards_matches_one_file() {
    let tree = Tree::new(&["File", "file", "one"]);
    assert_eq!(tree.find("ONE"), ["one"]);
    assert!(matches!(tree.walk("two").0, Err(WalkError::NoMatch)));
    match tree.walk("FILE").0 {
        Err(WalkError::MultipleMatches(paths)) => {
            let paths: Vec<String> = paths.iter().map(|p| text(p)).collect();
            assert_eq!(paths, ["File", "file"]);
        },
        other => panic!("{other:?}"),
    }
    assert!(tree.find("t*").is_empty());
}

#[test]
fn a_loop_is_an_error() {
    let mut tree = Tree::new(&["a/b/c/d"]);
    let above = tree.files[&path("a")].1;
    tree.files.get_mut(&path("a/b/c")).unwrap().1 = above;
    match tree.walk("**/d").0 {
        Err(WalkError::SymlinkLoop(dir)) => assert_eq!(text(&dir), "a/b/c"),
        other => panic!("{other:?}"),
    }
    // The same directory twice, but not in itself.
    let mut tree = Tree::new(&["a/d", "b/d"]);
    let twin = tree.files[&path("a")].1;
    tree.files.get_mut(&path("b")).unwrap().1 = twin;
    assert_eq!(tree.find("**/d"), ["a/d", "b/d"]);
}

/// Every directory holds a file and a directory, and there are only so many ids.
fn walk_endless(glob: &str, ids: u64) -> Result<Vec<String>, WalkError> {
    let mut walk: Walk = glob_files_relative(glob).expect("the glob is wrong");
    let names = || vec![b"dir".to_vec(), b"file".to_vec()];
    loop {
        match walk.request() {
            Request::Read(_) => walk.read(names()),
            Request::Kind(path) => {
                let is_dir = path.last().unwrap() == b"dir";
                walk.kind(if is_dir { FileType::Dir } else { FileType::File });
            },
            Request::Enter(dir) => walk.enter(id(dir.len() as u64 % ids), names())?,
            Request::Done => return Ok(walk.finish()?.iter().map(|p| text(p)).collect()),
        }
    }
}

#[test]
fn a_walk_comes_to_an_end() {
    match walk_endless("**/file", 4) {
        Err(WalkError::SymlinkLoop(dir)) => assert_eq!(text(&dir), "dir/dir/dir/dir"),
        other => panic!("{other:?}"),
    }
    match walk_endless("dir/**/file", 1) {
        Err(WalkError::SymlinkLoop(dir)) => assert_eq!(text(&dir), "dir/dir"),
        other => panic!("{other:?}"),
    }
    // Nothing is gone into that the glob does not ask for.
    assert_eq!(walk_endless("*/*/fil?", 1).unwrap(), ["dir/dir/file"]);
}

#[test]
fn globs_that_match_no_files() {
    assert_eq!(glob_files_relative("a/").err(), Some(GlobError::TrailingSeparator));
    assert_eq!(glob_files_relative("..").err(), Some(GlobError::NoSegments));
    assert_eq!(glob_files_relative("").err(), Some(GlobError::Empty));
    assert_eq!(glob_files_relative("../../a").map(|w| w.parent_segs()).ok(), Some(2));
}

#[test]
fn only_matching_directories_are_read() {
    // The start, its one matching entry's type, that directory, the type of its entry, the end.
    let tree = Tree::new(&["a/f", "b/f", "c/f"]);
    let (found, requests) = tree.walk("b/f");
    assert_eq!(found.unwrap(), ["b/f"]);
    assert_eq!(requests, 5);
}

#[test]
fn long_paths_of_segments() {
    // More segments in a row than fit into one machine word.
    let names: Vec<String> = (0..80).map(|i| format!("d{i}")).collect();
    let file = format!("s/{}/f", names.join("/"));
    let tree = Tree::new(&[&file]);
    assert_eq!(tree.find(&format!("**/{}/f", names.join("/"))), [file.clone()]);
    assert_eq!(tree.find(&format!("**/{}/**/f", names[3..75].join("/"))), [file]);
}
