use build_content_pack::cli::{
    args, ArgsError, Clap, Compress, Compression, Feature, FeatureSet, Features, Indent, IndentError,
    PackArg, Print, WrapArg,
};
use build_content_pack::file::{FileId, FileType};
use build_content_pack::order::{name_order, same_name, sort, Order};
use build_content_pack::pack::building::{build_pack, BuildError, Task};
use build_content_pack::pack::run::{run, Stage};
use build_content_pack::source::{map_file_ext, skips, source_kind, SourceKind};
use std::collections::BTreeMap;

const ALL: Features = Features { svg: true, toml: true };

#[test]
fn names_of_what_is_built() {
    for (name, expected, kind) in [
        ("a.svg", "a.png", SourceKind::Svg),
        ("a.SvG", "a.png", SourceKind::Svg),
        ("a.b.toml", "a.b.json", SourceKind::Toml),
        ("a.TOML", "a.json", SourceKind::Toml),
        ("a.txt", "a.txt", SourceKind::Other),
        ("svg", "svg", SourceKind::Other),
        (".svg", ".svg", SourceKind::Other),
        ("..svg", "..png", SourceKind::Svg),
        ("a.svg.", "a.svg.", SourceKind::Other),
        ("a.svgz", "a.svgz", SourceKind::Other),
        ("", "", SourceKind::Other),
    ] {
        assert_eq!(map_file_ext(ALL, name.as_bytes()), expected.as_bytes(), "{name}");
        assert_eq!(source_kind(ALL, name.as_bytes()), kind, "{name}");
        // What is built is not built again.
        assert_eq!(map_file_ext(ALL, expected.as_bytes()), expected.as_bytes(), "{expected}");
    }
    let none = Features { svg: false, toml: false };
    assert_eq!(map_file_ext(none, b"a.svg"), b"a.svg");
    assert_eq!(source_kind(none, b"a.toml"), SourceKind::Other);
    assert_eq!(map_file_ext(Features { svg: true, toml: false }, b"a.toml"), b"a.toml");
    assert_eq!(map_file_ext(ALL, b"\xFF.svg"), b"\xFF.png");
}

#[test]
fn marks_of_directories_to_leave_out() {
    assert!(skips(b".content-pack-skip"));
    assert!(skips(b".Content-Pack-SKIP"));
    assert!(!skips(b".content-pack-skip.txt"));
    assert!(!skips(b"content-pack-skip"));
}

#[test]
fn names_are_ordered_byte_by_byte() {
    assert_eq!(name_order(b"a", b"b"), Order::Before);
    assert_eq!(name_order(b"a", b"aa"), Order::Before);
    assert_eq!(name_order(b"B", b"a"), Order::Before);
    assert_eq!(name_order(b"\xFF", b"a"), Order::After);
    assert_eq!(name_order(b"ab", b"ab"), Order::Same);
    assert!(same_name(b"", b""));
    assert!(!same_name(b"a", b"A"));
}

#[test]
fn sorting_keeps_what_there_is() {
    let path = |s: &str| -> Vec<Vec<u8>> { s.split('/').map(|n| n.as_bytes().to_vec()).collect() };
    let texts = ["b", "a/b", "a", "c/a", "a", "a/a/a"];
    let sorted = sort(texts.iter().map(|t| path(t)).collect());
    let expected: Vec<Vec<Vec<u8>>> =
        ["a", "a", "a/a/a", "a/b", "b", "c/a"].iter().map(|t| path(t)).collect();
    assert_eq!(sorted, expected);
}

/// The entries of directories, each with an id.
struct Tree {
    dirs: BTreeMap<&'static str, (u64, Vec<(&'static str, FileType)>)>,
}

fn dir(name: &'static str) -> (&'static str, FileType) {
    (name, FileType::Dir)
}

fn file(name: &'static str) -> (&'static str, FileType) {
    (name, FileType::File)
}

fn text(path: &[Vec<u8>]) -> String {
    let names: Vec<String> = path.iter().map(|n| String::from_utf8(n.clone()).unwrap()).collect();
    names.join("/")
}

impl Tree {
    fn build(&self, features: Features) -> Result<Vec<String>, BuildError> {
        let mut build = build_pack(features);
        let mut log = Vec::new();
        loop {
            match build.task() {
                Task::Read(dir) => {
                    let entries = self.dirs[text(&dir).as_str()]
                        .1
                        .iter()
                        .map(|(name, ty)| (name.as_bytes().to_vec(), *ty))
                        .collect();
                    build.read(entries)?;
                },
                Task::Open(dir, name) => {
                    log.push(format!("open {} as {}", text(&dir), text(&[name])));
                    let n = self.dirs[text(&dir).as_str()].0;
                    build.opened(FileId::LowRes { serial_number: 0, file_index: n })?;
                },
                Task::File(path, name, kind) => {
                    log.push(format!("{kind:?} {} as {}", text(&path), text(&[name])));
                    build.filed();
                },
                Task::Close(dir) => {
                    log.push(format!("close {}", text(&dir)));
                    build.closed();
                },
                Task::Done => return Ok(log),
            }
        }
    }
}

#[test]
fn packs_are_built_in_order() {
    let tree = Tree {
        dirs: BTreeMap::from([
            ("", (1, vec![file("b.toml"), dir("sub"), file("a.svg"), dir("skipped"), file("c")])),
            ("sub", (2, vec![file("x.toml"), dir("empty")])),
            ("sub/empty", (3, vec![])),
            ("skipped", (4, vec![file(".CONTENT-PACK-SKIP"), file("y"), dir("z")])),
        ]),
    };
    assert_eq!(
        tree.build(ALL).unwrap(),
        [
            "open  as ",
            "Svg a.svg as a.png",
            "Toml b.toml as b.json",
            "Other c as c",
            "open sub as sub",
            "open sub/empty as empty",
            "close sub/empty",
            "Toml sub/x.toml as x.json",
            "close sub",
            "close ",
        ],
    );
    let log = tree.build(Features { svg: false, toml: true }).unwrap();
    assert_eq!(log[1], "Other a.svg as a.svg");
}

#[test]
fn a_pack_may_be_left_out() {
    let tree = Tree {
        dirs: BTreeMap::from([("", (1, vec![file("a"), dir(".content-pack-skip")]))]),
    };
    assert!(tree.build(ALL).unwrap().is_empty());
}

#[test]
fn errors_of_packs() {
    let tree = Tree {
        dirs: BTreeMap::from([("", (1, vec![file("b"), file("a.svg"), file("c"), file("a.png")]))]),
    };
    match tree.build(ALL) {
        Err(BuildError::DuplicateNames(name)) => assert_eq!(name, b"a.png"),
        other => panic!("{other:?}"),
    }
    assert_eq!(tree.build(Features { svg: false, toml: false }).unwrap().len(), 6);
    // What is left out may hold the same name twice.
    let tree = Tree {
        dirs: BTreeMap::from([
            ("", (1, vec![file("a.svg"), file("a.png"), file(".content-pack-skip")])),
        ]),
    };
    assert!(tree.build(ALL).unwrap().is_empty());
    let tree = Tree {
        dirs: BTreeMap::from([
            ("", (1, vec![dir("a")])),
            ("a", (2, vec![dir("b")])),
            ("a/b", (1, vec![dir("a")])),
        ]),
    };
    match tree.build(ALL) {
        Err(BuildError::SymlinkLoop(dir)) => assert_eq!(text(&dir), "a/b"),
        other => panic!("{other:?}"),
    }
}

#[test]
fn a_build_comes_to_an_end() {
    // Every directory holds another, and there are only so many ids.
    for ids in [1, 2, 7] {
        let mut build = build_pack(ALL);
        let end = loop {
            match build.task() {
                Task::Read(_) => build.read(vec![(b"a".to_vec(), FileType::Dir)]).unwrap(),
                Task::Open(dir, _) => {
                    let inode_number = dir.len() as u64 % ids;
                    let id = FileId::Inode { device_id: 0, inode_number };
                    if let Err(e) = build.opened(id) {
                        break e;
                    }
                },
                other => panic!("{other:?}"),
            }
        };
        assert!(matches!(end, BuildError::SymlinkLoop(dir) if dir.len() as u64 == ids));
    }
}

#[test]
fn a_build_that_is_refused_stays_where_it_is() {
    let mut build = build_pack(ALL);
    let twins = vec![(b"a.svg".to_vec(), FileType::File), (b"a.png".to_vec(), FileType::File)];
    assert!(matches!(build.read(twins), Err(BuildError::DuplicateNames(_))));
    assert!(matches!(build.task(), Task::Read(dir) if dir.is_empty()));
    let id = FileId::LowRes { serial_number: 0, file_index: 1 };
    build.read(vec![(b"a".to_vec(), FileType::Dir)]).unwrap();
    build.opened(id).unwrap();
    build.read(vec![]).unwrap();
    assert!(matches!(build.opened(id), Err(BuildError::SymlinkLoop(_))));
    assert!(matches!(build.task(), Task::Open(dir, _) if dir == [b"a".to_vec()]));
}

#[test]
fn runs_go_on_after_errors() {
    let mut r = run(2);
    assert_eq!(r.stage, Stage::Setup);
    r.handle_err(true);
    assert_eq!(r.stage, Stage::Pack(0));
    r.handle_err(false);
    assert_eq!(r.stage, Stage::Pack(1));
    r.handle_err(true);
    assert_eq!(r.stage, Stage::Finish);
    assert!(r.get_err());
    r.handle_err(true);
    assert_eq!(r.stage, Stage::Done);
    assert!(r.get_err());

    let mut r = run(2);
    r.handle_err(false);
    assert_eq!(r.stage, Stage::Done);
    assert!(r.get_err());

    let mut r = run(0);
    r.handle_err(true);
    assert_eq!(r.stage, Stage::Finish);
    r.handle_err(true);
    assert!(!r.get_err());
    r.set_err();
    assert!(r.get_err());
}

#[test]
fn indentations() {
    assert_eq!(Indent::from_str("tab"), Ok(Indent::Tabs));
    assert_eq!(Indent::from_str(" TABS\n"), Ok(Indent::Tabs));
    assert_eq!(Indent::from_str("None"), Ok(Indent::Spaces(0)));
    assert_eq!(Indent::from_str("no"), Ok(Indent::Spaces(0)));
    assert_eq!(Indent::from_str("8"), Ok(Indent::Spaces(8)));
    assert_eq!(Indent::from_str("+032"), Ok(Indent::Spaces(32)));
    assert_eq!(Indent::from_str("33"), Err(IndentError::TooWide));
    for text in ["", "+", "-1", "1 2", "two", "tabz", "99999999999999999999999"] {
        assert_eq!(Indent::from_str(text), Err(IndentError::NotANumber), "{text:?}");
        assert!(text.trim().parse::<usize>().is_err());
    }
    assert_eq!(Indent::from_str("18446744073709551615"), Err(IndentError::TooWide));
    assert_eq!(Indent::default(), Indent::Spaces(4));
    assert_eq!(Indent::Tabs.get(), "\t");
    assert_eq!(Indent::Spaces(0).get(), "");
    assert_eq!(Indent::Spaces(32).get(), " ".repeat(32));
}

#[test]
fn flags() {
    assert_eq!(Print { pretty: false, indent: None }.get(), None);
    assert_eq!(Print { pretty: true, indent: None }.get(), Some("    "));
    assert_eq!(Print { pretty: false, indent: Some(Indent::Tabs) }.get(), Some("\t"));
    let compress = |no_compress, max_compress| Compress { no_compress, max_compress }.get();
    assert_eq!(compress(true, false), Compression::Off);
    assert_eq!(compress(false, false), Compression::Normal);
    assert_eq!(compress(false, true), Compression::Max);
    let set = |enable, disable| FeatureSet { enable, disable }.get();
    assert_eq!(set(None, None), ALL);
    assert_eq!(set(Some(vec![]), None), Features { svg: false, toml: false });
    assert_eq!(
        set(Some(vec![Feature::Toml, Feature::Toml]), None),
        Features { svg: false, toml: true },
    );
    assert_eq!(set(None, Some(vec![Feature::Toml])), Features { svg: true, toml: false });
    assert_eq!(set(None, Some(vec![])), ALL);
}

fn arg(text: &str) -> PackArg {
    PackArg {
        text: text.as_bytes().to_vec(),
        file_name: text.rsplit('/').next().unwrap().as_bytes().to_vec(),
        is_dir: !text.contains('!'),
    }
}

fn clap(packs: &[&str], named: bool) -> Clap {
    Clap {
        packs: packs.iter().map(|p| arg(p)).collect(),
        named,
        force: false,
        wrap: None,
        print: Print { pretty: true, indent: None },
        compress: Compress { no_compress: false, max_compress: true },
        feature_set: FeatureSet { enable: None, disable: Some(vec![Feature::Svg]) },
    }
}

#[test]
fn arguments_are_put_together() {
    let a = args(clap(&["p/b", "p/a"], false)).unwrap();
    let packs: Vec<(usize, &[u8])> = a.packs.iter().map(|p| (p.path, &p.name[..])).collect();
    assert_eq!(packs, [(1, &b"a"[..]), (0, &b"b"[..])]);
    assert!(a.output.cache);
    assert_eq!(a.output.wrap_zip, "");
    assert_eq!(a.options.pretty_print, Some("    "));
    assert_eq!(a.options.compression, Compression::Max);
    assert_eq!(a.options.features, Features { svg: false, toml: true });

    let mut c = clap(&["p/b", "z", "p/a", "y"], true);
    c.force = true;
    c.wrap = Some(WrapArg { path: "w".to_string(), is_relative: true });
    let a = args(c).unwrap();
    let packs: Vec<(usize, &[u8])> = a.packs.iter().map(|p| (p.path, &p.name[..])).collect();
    assert_eq!(packs, [(2, &b"y"[..]), (0, &b"z"[..])]);
    assert!(!a.output.cache);
    assert_eq!(a.output.wrap_zip, "w");
}

#[test]
fn errors_of_arguments() {
    let error = |c: Clap| match args(c) {
        Err(e) => e,
        Ok(_) => panic!("there is no error"),
    };
    assert!(matches!(error(clap(&["a", "x", "b!"], true)), ArgsError::MissingName(2)));
    assert!(matches!(error(clap(&["a", "b!", "c/"], false)), ArgsError::NotADir(1)));
    assert!(matches!(error(clap(&["a", "c/", "b!"], false)), ArgsError::EmptyName(1)));
    match error(clap(&["a", "x/y"], true)) {
        ArgsError::SeparatorInName(name) => assert_eq!(name, b"x/y"),
        other => panic!("{other:?}"),
    }
    assert!(matches!(error(clap(&["a", "x\\y"], true)), ArgsError::SeparatorInName(_)));
    match error(clap(&["1/c", "1/b", "2/c", "2/b", "a"], false)) {
        ArgsError::DuplicateName(name) => assert_eq!(name, b"b"),
        other => panic!("{other:?}"),
    }
    let mut c = clap(&["a"], false);
    c.wrap = Some(WrapArg { path: String::new(), is_relative: true });
    assert!(matches!(error(c), ArgsError::EmptyWrap));
    let mut c = clap(&["a"], false);
    c.wrap = Some(WrapArg { path: "/a".to_string(), is_relative: false });
    assert!(matches!(error(c), ArgsError::AbsoluteWrap));
}
