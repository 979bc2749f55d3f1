use build_content_pack::cli::{Compression, Features, Options};
use build_content_pack::file::{get_file_modified, later, FileId, FileType, Modified};
use build_content_pack::text;
use build_content_pack::toml::line::{read_line, Line};
use build_content_pack::toml::preprocess::{load_and_preprocess_toml, Need, TomlError};
use build_content_pack::toml::{finish_json, File, TranscodeError};

fn chars(s: &str) -> Vec<char> {
    s.chars().collect()
}

fn lines(s: &str) -> Vec<String> {
    text::lines(&chars(s)).iter().map(|l| l.iter().collect()).collect()
}

#[test]
fn lines_end_like_those_of_the_standard_library() {
    for text in ["", "a", "a\n", "a\r\nb", "\n\n", "a\r", "a\r\r\n", "\r\n\r\n", "a\nb\r\nc", "\rb\n"] {
        let expected: Vec<&str> = text.lines().collect();
        assert_eq!(lines(text), expected, "{text:?}");
    }
}

#[test]
fn white_space_is_that_of_unicode() {
    for c in (0..0x11_0000).filter_map(char::from_u32) {
        assert_eq!(text::white_space(c), c.is_whitespace(), "{c:?}");
    }
}

fn line(s: &str) -> (&'static str, String) {
    match read_line(&chars(s)) {
        Line::Text(t) => ("text", t.iter().collect()),
        Line::Include(g) => ("include", g.iter().collect()),
        Line::Unknown(n) => ("unknown", n.iter().collect()),
        Line::Empty => ("empty", String::new()),
    }
}

#[test]
fn what_lines_stand_for() {
    assert_eq!(line("a = 1"), ("text", "a = 1".to_string()));
    assert_eq!(line("# a"), ("text", "# a".to_string()));
    assert_eq!(line(" ##include a"), ("text", " ##include a".to_string()));
    assert_eq!(line("### a"), ("text", "## a".to_string()));
    assert_eq!(line("####"), ("text", "###".to_string()));
    assert_eq!(line("##include a b.toml"), ("include", "a b.toml".to_string()));
    assert_eq!(line("##include\t \u{3000}a "), ("include", "a ".to_string()));
    assert_eq!(line("##include"), ("include", String::new()));
    assert_eq!(line("##Include a"), ("unknown", "Include".to_string()));
    assert_eq!(line("##includes a"), ("unknown", "includes".to_string()));
    assert_eq!(line("##"), ("empty", String::new()));
    assert_eq!(line("## include a"), ("empty", String::new()));
}

#[test]
fn escaped_text_is_kept() {
    for s in ["##", "## a", "##include b", "###", "##\u{e9}"] {
        assert_eq!(line(&format!("#{s}")), ("text", s.to_string()));
    }
}

fn id(n: usize) -> FileId {
    FileId::Inode { device_id: 0, inode_number: n as u64 }
}

/// Preprocesses the first of the files. A glob is the number of a file, or several.
fn preprocess(files: &[(&str, Option<i128>)]) -> Result<(String, Option<i128>), String> {
    let mut p = load_and_preprocess_toml(0, id(0), files[0].0, files[0].1);
    loop {
        match p.need() {
            Ok(Need::File(n)) => {
                if !p.file(n, id(n), files[n].0, files[n].1) {
                    return Err(format!("loop at {n}"));
                }
            },
            Ok(Need::Glob(_, glob)) => {
                let paths: Vec<usize> =
                    glob.split_whitespace().map(|s| s.parse().unwrap()).collect();
                p.glob(paths);
            },
            Ok(Need::Done) => return Ok(p.finish()),
            Err(TomlError::EmptyCommand(n)) => return Err(format!("empty in {n}")),
            Err(TomlError::UnknownCommand(c, n)) => return Err(format!("unknown {c} in {n}")),
        }
    }
}

#[test]
fn files_stand_in_the_place_of_commands() {
    let files = [
        ("a\n##include 1 2\nb", Some(5)),
        ("c\r\n##include 3\n", Some(7)),
        ("###d", Some(6)),
        ("", Some(1)),
    ];
    assert_eq!(preprocess(&files), Ok(("a\nc\n##d\nb\n".to_string(), Some(7))));
}

#[test]
fn a_file_may_be_included_twice() {
    let files = [("##include 1 1\n##include 1", None), ("x", Some(3))];
    assert_eq!(preprocess(&files), Ok(("x\nx\nx\n".to_string(), None)));
    let files = [("##include 1 2", Some(1)), ("##include 2", Some(2)), ("y", Some(9))];
    assert_eq!(preprocess(&files), Ok(("y\ny\n".to_string(), Some(9))));
}

#[test]
fn a_time_is_known_if_all_are() {
    let files = [("##include 1\n##include 2", Some(4)), ("", None), ("", Some(8))];
    assert_eq!(preprocess(&files), Ok((String::new(), None)));
    assert_eq!(preprocess(&[("##include", Some(4))]), Ok((String::new(), Some(4))));
}

#[test]
fn errors_of_preprocessing() {
    assert_eq!(preprocess(&[("a\n##", None)]), Err("empty in 0".to_string()));
    assert_eq!(
        preprocess(&[("##include 1", None), ("##define x", None)]),
        Err("unknown define in 1".to_string()),
    );
    let files = [("##include 1", None), ("##include 2", None), ("##include 0", None)];
    assert_eq!(preprocess(&files), Err("loop at 0".to_string()));
    assert_eq!(preprocess(&[("##include 0", None)]), Err("loop at 0".to_string()));
    // A loop is refused wherever it is.
    let files = [("##include 1 2", None), ("", None), ("a\n##include 3", None), ("##include 2", None)];
    assert_eq!(preprocess(&files), Err("loop at 2".to_string()));
}

fn options(pretty_print: Option<&'static str>) -> Options {
    Options {
        pretty_print,
        compression: Compression::Normal,
        features: Features { svg: true, toml: true },
    }
}

fn json(toml: &str, pretty_print: Option<&'static str>) -> Result<String, &'static str> {
    let file = File { modified: Some(3), toml: toml.to_string() };
    assert_eq!(file.modified(), Some(3));
    match file.write(&options(pretty_print)) {
        Ok(bytes) => Ok(String::from_utf8(bytes).unwrap()),
        Err(TranscodeError::Parse(_)) => Err("parse"),
        Err(TranscodeError::Transcode(_)) => Err("transcode"),
    }
}

#[test]
fn toml_becomes_json() {
    let toml = "[a]\nb = [1, 2.5]\nc = \"x\\ny\"\n";
    assert_eq!(json(toml, None), Ok("{\"a\":{\"b\":[1,2.5],\"c\":\"x\\ny\"}}\n".to_string()));
    assert_eq!(
        json("a = [true]", Some("\t")),
        Ok("{\n\t\"a\": [\n\t\ttrue\n\t]\n}\n".to_string()),
    );
    assert_eq!(json("a = 1", Some("")), Ok("{\n\"a\": 1\n}\n".to_string()));
    assert_eq!(json("", None), Ok("{}\n".to_string()));
    assert_eq!(json("a = ", None), Err("parse"));
    assert_eq!(json("a = 1\na = 2", Some("  ")), Err("parse"));
    assert_eq!(finish_json(b"1".to_vec()), b"1\n");
}

#[test]
fn the_later_of_two_times() {
    assert_eq!(later(Some(1), Some(2)), Some(2));
    assert_eq!(later(Some(-1), Some(-2)), Some(-1));
    assert_eq!(later(None, Some(2)), None);
    assert_eq!(later(Some(1), None), None);
}

#[test]
fn links_are_followed_to_the_file() {
    let first = get_file_modified(None, false, Some(9));
    assert_eq!(first, Modified::Follow(9));
    let second = get_file_modified(Some(first), false, Some(3));
    assert_eq!(second, Modified::Follow(9));
    assert_eq!(get_file_modified(Some(second), true, Some(12)), Modified::At(12));
    assert_eq!(get_file_modified(Some(second), true, Some(1)), Modified::At(9));
    assert_eq!(get_file_modified(Some(second), true, None), Modified::Unknown);
    assert_eq!(get_file_modified(None, true, Some(4)), Modified::At(4));
    assert_eq!(get_file_modified(None, true, None), Modified::Unknown);
    assert_eq!(get_file_modified(Some(Modified::Unknown), true, Some(1)), Modified::Unknown);
}

#[test]
fn types_of_files() {
    assert_eq!(FileType::for_meta(true, false), Some(FileType::Dir));
    assert_eq!(FileType::for_meta(false, true), Some(FileType::File));
    assert_eq!(FileType::for_meta(false, false), None);
}
