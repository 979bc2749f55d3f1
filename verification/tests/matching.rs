use build_content_pack::glob::lex::{lex, GlobError, Token};
use build_content_pack::glob::parse::{parse, segment, Component, Glob};
use build_content_pack::glob::pattern::{FixedStr, Pattern};
use build_content_pack::grapheme;
use build_content_pack::normal::{normalize_char_iter, Normalized};
use build_content_pack::utf8;

#[test]
fn segment_matching() {
    const CASES: &[(&str, &[u8], bool)] = &[
        ("abcdefg", b"ABCDEFG", true),
        ("abcdefg", b"ABCDEFG ", false),
        ("foo?*?bar", b"fooz\xFFzfbo\xFFar\xFFazjkduibar", true),
        ("k*", b"k\xF0\x9F\x87\xA8\xF0\x9F\x87\xA6\xFFv", true),
        ("k\u{1F1E8}*", b"k\xF0\x9F\x87\xA8\xF0\x9F\x87\xA6\xFFv", false),
        ("k\u{1F1E8}\u{1F1E6}*", b"k\xF0\x9F\x87\xA8\xF0\x9F\x87\xA6\xFFv", true),
        ("k\u{1F1E8}\u{1F1E6}*v", b"k\xF0\x9F\x87\xA8\xF0\x9F\x87\xA6\xFFv", true),
        ("?", b"\xFF", false),
        ("a*b*c", b"azzxbyyyc", true),
        ("a*b*c", b"azzxbyyyc\0", false),
        ("*foo*bar*baz*", b"obfobbfoozazofbrbabarfzrobaofbaazzbazf", true),
        ("*.jpg", b"\xFF\xFF\xFF\xFF\xFF\xFF\xFF.JPG", true),
        ("\u{1C6}\u{2460}ß.xml", b"d\xC5\xBE1Ss.XmL", true),
    ];

    for &(glob, text, expected) in CASES {
        let g = parse(glob).expect("failed to parse glob");
        if g.parent_segs != 0 || !g.floating_paths.is_empty() || g.trailing_sep {
            panic!("single-segment glob parsed as multiple segments: {glob:?}");
        }

        let [seg] = &*g.base_path.segments else {
            panic!("single-segment glob parsed as multiple segments: {glob:?}");
        };

        assert_eq!(
            seg.match_text(text.as_ref()), expected,
            "match({glob:?}, {:?})", String::from_utf8_lossy(text),
        );
    }
}

#[test]
fn rev_utf8_chunks() {
    const CASES: &[(&[u8], &[(&str, &[u8])])] = &[
        (b"\xE1\xA0 ", &[(" ", b"\xE1\xA0")]),
        (b"a\xF0\x9F\xAB\xAAb\xF0\x80\x80\x80cd", &[
            ("cd", b"\xF0\x80\x80\x80"),
            ("a\u{1FAEA}b", b""),
        ]),
        (b"\x80foo\xFFbar\xF7\xF8baz\x80\x80\x80", &[
            ("", b"\x80"),
            ("", b"\x80"),
            ("", b"\x80"),
            ("baz", b"\xF8"),
            ("", b"\xF7"),
            ("bar", b"\xFF"),
            ("foo", b"\x80"),
        ]),
    ];

    for (text, expected) in CASES {
        let chunks = utf8::rev_utf8_chunks(text);
        assert_eq!(&chunks, expected, "text: {text:?}");
    }
}

#[test]
fn reverse_chunks_put_the_bytes_together() {
    let text = b"ab\xC3\xA9\xFF\xFEc\xE2\x82";
    let mut bytes: Vec<u8> = Vec::new();
    for (valid, invalid) in utf8::rev_utf8_chunks(text).iter().rev() {
        bytes.extend_from_slice(invalid);
        bytes.extend_from_slice(valid.as_bytes());
    }
    assert_eq!(bytes, text);
    assert!(utf8::rev_utf8_chunks(b"").is_empty());
    assert_eq!(utf8::trailing_str(text), "");
    assert_eq!(utf8::trailing_str(b"\xFFab\xC3\xA9"), "ab\u{E9}");
}

#[test]
fn widths_of_first_bytes() {
    for (byte, width) in [
        (0x00, 1), (0x7F, 1), (0x80, 0), (0xBF, 0), (0xC1, 0), (0xC2, 2), (0xDF, 2), (0xE0, 3),
        (0xEF, 3), (0xF0, 4), (0xF4, 4), (0xF5, 0), (0xFF, 0),
    ] {
        assert_eq!(utf8::utf8_char_width(byte), width, "byte {byte:x}");
    }
}

fn chars(s: &str) -> Vec<char> {
    s.chars().collect()
}

#[test]
fn normalizing_folds_case_and_compatibility() {
    assert_eq!(normalize_char_iter(&chars("STRASSE")), chars("strasse"));
    assert_eq!(normalize_char_iter(&chars("Straße")), chars("strasse"));
    // A ligature, a circled digit and a composed letter.
    assert_eq!(normalize_char_iter(&chars("\u{FB01}\u{2460}\u{C9}")), chars("fi1e\u{301}"));
    // A subscript goes behind the accent before case folding makes a letter of it.
    assert_eq!(normalize_char_iter(&chars("\u{1FB3}\u{301}")), chars("\u{3B1}\u{301}\u{3B9}"));
    // A letter that only case folding takes apart.
    assert_eq!(normalize_char_iter(&chars("\u{1F0}")), chars("j\u{30C}"));
}

#[test]
fn normalized_text_is_stripped() {
    let text: Normalized<Vec<char>> = Normalized::<Vec<char>>::normalize(&chars("AbC"));
    assert_eq!(text.0, chars("abc"));
    assert!(!text.is_empty());
    let rest = text.as_deref().strip_prefix_iter(&chars("AB")).expect("no such prefix");
    assert_eq!(rest.0, &chars("c")[..]);
    assert!(text.as_deref().strip_prefix_iter(&chars("b")).is_none());
    let prefix: Normalized<Vec<char>> = Normalized::<Vec<char>>::normalize(&chars("A"));
    let rest = text.as_deref().strip_prefix(prefix.as_deref()).expect("no such prefix");
    assert_eq!(rest.0, &chars("bc")[..]);
    let suffix: Normalized<Vec<char>> = Normalized::<Vec<char>>::normalize(&chars("BC"));
    let rest = text.as_deref().strip_suffix(suffix.as_deref()).expect("no such suffix");
    assert_eq!(rest.0, &chars("a")[..]);
    assert!(rest.strip_suffix(suffix.as_deref()).is_none());
}

#[test]
fn normalized_text_goes_behind_what_is_there() {
    let mut buf = chars("AB");
    let text = Normalized::<&[char]>::normalize_to(&mut buf, &chars("C\u{C9}"));
    assert_eq!(text.0, &chars("ce\u{301}")[..]);
    assert_eq!(buf, chars("ABce\u{301}"));
}

#[test]
fn clusters_go_both_ways() {
    // Two flags of two regional indicators each, a letter with an accent, and a line break.
    let text = "\u{1F1E8}\u{1F1E6}\u{1F1E8}\u{1F1E6}e\u{301}\r\n";
    let forward: Vec<usize> = grapheme::split(text).iter().map(|g| g.width).collect();
    assert_eq!(forward, [8, 8, 3, 2]);
    let back: Vec<usize> = grapheme::rev_split(text).iter().map(|g| g.width).collect();
    assert_eq!(back, [2, 3, 8, 8]);
    assert_eq!(grapheme::split("E\u{301}")[0].folded.0, chars("e\u{301}"));
    assert!(grapheme::split("").is_empty());
    // Odd flags, a joined emoji, a consonant that is joined to another, and marks without a base.
    for text in [
        "x\u{1F1E8}\u{1F1E6}\u{1F1E8}y",
        "\u{1F469}\u{200D}\u{1F467}\u{1F469}",
        "\u{915}\u{94D}\u{924}\u{94D}\u{915}a\u{94D}\u{915}",
        "\u{301}\u{301}\u{600}1\u{1100}\u{1161}\u{11A8}\n\u{200D}\u{1F467}",
    ] {
        let forward: Vec<usize> = grapheme::split(text).iter().map(|g| g.width).collect();
        let mut back: Vec<usize> = grapheme::rev_split(text).iter().map(|g| g.width).collect();
        back.reverse();
        assert_eq!(forward, back, "{text:?}");
    }
}

#[test]
fn whole_texts_match_from_either_end() {
    let lit = |s: &str| Pattern::Lit(Normalized::<Vec<char>>::normalize(&chars(s)));
    let strs = [
        FixedStr { patterns: vec![] },
        FixedStr { patterns: vec![lit("ab"), Pattern::AnyGraphemes(1), lit("a")] },
        FixedStr { patterns: vec![Pattern::AnyGraphemes(2)] },
        FixedStr { patterns: vec![lit("stra"), lit("ss"), lit("e")] },
    ];
    let texts = ["", "ab", "ABxA", "abe\u{301}a", "abaa", "xabxa", "Straße", "stras\u{17F}e"];
    let mut whole = 0;
    for text in texts {
        let front = grapheme::split(text);
        let back = grapheme::rev_split(text);
        for str in &strs {
            let taken = str.match_prefix(&front) == Some(front.len());
            assert_eq!(str.match_suffix(&back) == Some(back.len()), taken, "{text:?}");
            whole += usize::from(taken);
        }
    }
    assert_eq!(whole, 7);
}

#[test]
fn tokens_of_a_glob() {
    let tokens = lex("a?*/\\*b\\\\c***d");
    let texts: Vec<String> = tokens
        .iter()
        .map(|t| match t {
            Ok(Token::Lit(lit)) => lit.iter().collect(),
            Ok(Token::AnyGrapheme) => "<?>".to_string(),
            Ok(Token::AnyStr) => "<*>".to_string(),
            Ok(Token::Sep) => "</>".to_string(),
            Ok(Token::AnyTree) => "<**>".to_string(),
            Err(e) => format!("{e:?}"),
        })
        .collect();
    assert_eq!(texts, ["a", "<?>", "<*>", "</>", "*b", "\\c", "<**>", "d"]);
    assert!(lex("").is_empty());
}

#[test]
fn escaped_text_stands_for_itself() {
    for text in ["a*b?c\\d", "**", "\\", "?a", "plain", "\u{e9}*"] {
        let mut glob = String::new();
        for c in text.chars() {
            if matches!(c, '*' | '?' | '\\') {
                glob.push('\\');
            }
            glob.push(c);
        }
        let mut spelled = String::new();
        for token in lex(&glob) {
            match token {
                Ok(Token::Lit(lit)) => spelled.extend(lit),
                other => panic!("{other:?}"),
            }
        }
        assert_eq!(spelled, text);
        let g = parsed(&glob);
        assert!(!g.is_match_multiple());
        let base = &g.base_path.segments[0].base_str.patterns;
        assert!(matches!(&base[..], [Pattern::Lit(_)]));
        assert!(g.base_path.segments[0].match_text(text.as_bytes()));
        assert!(!g.base_path.segments[0].match_text(b"other"));
    }
}

fn error(glob: &str) -> GlobError {
    match parse(glob) {
        Err(e) => e,
        Ok(_) => panic!("{glob:?} has no error"),
    }
}

#[test]
fn errors_of_globs() {
    assert_eq!(error(""), GlobError::Empty);
    assert_eq!(error("a\\b"), GlobError::InvalidEscape('b'));
    assert_eq!(error("a\\"), GlobError::UnfinishedEscape);
    assert_eq!(error("/a"), GlobError::NotRelative);
    assert_eq!(error("**a"), GlobError::AfterTree);
    assert_eq!(error("a**"), GlobError::BeforeTree);
    assert_eq!(error("a/../b"), GlobError::MisplacedParent);
    // The first error counts.
    assert_eq!(error("a/../\\"), GlobError::MisplacedParent);
    assert_eq!(error("\\x/.."), GlobError::InvalidEscape('x'));
}

fn shape(glob: &Glob) -> (usize, usize, Vec<usize>, bool) {
    (
        glob.parent_segs,
        glob.base_path.segments.len(),
        glob.floating_paths.iter().map(|p| p.segments.len()).collect(),
        glob.trailing_sep,
    )
}

fn parsed(glob: &str) -> Glob {
    match parse(glob) {
        Ok(g) => g,
        Err(e) => panic!("{glob:?}: {e:?}"),
    }
}

#[test]
fn shapes_of_globs() {
    assert_eq!(shape(&parsed("a/b/c")), (0, 3, vec![], false));
    assert_eq!(shape(&parsed("../../a")), (2, 1, vec![], false));
    assert_eq!(shape(&parsed("./a//./b")), (0, 2, vec![], false));
    assert_eq!(shape(&parsed("**/a")), (0, 0, vec![1], false));
    assert_eq!(shape(&parsed("a/**/**/b/c/**/d")), (0, 1, vec![2, 1], false));
    // A double wildcard at the end is followed by any name.
    assert_eq!(shape(&parsed("a/**")), (0, 1, vec![1], false));
    assert_eq!(shape(&parsed("a/**/")), (0, 1, vec![1], true));
    assert_eq!(shape(&parsed("a/")), (0, 1, vec![], true));
    assert_eq!(shape(&parsed("..")), (1, 0, vec![], false));
    assert_eq!(shape(&parsed(".")), (0, 0, vec![], false));
}

#[test]
fn repeated_separators_are_one() {
    for (a, b) in [
        ("a", "b"),
        ("..", "a*"),
        ("**", "b"),
        ("a", "**"),
        ("a", ""),
        ("a/", "/b"),
        ("", "a"),
        ("a\\", "b"),
        ("a\\*", "b"),
        ("a", "../b"),
        ("a**", "b"),
        ("a", "\\x"),
    ] {
        let plain = parse(&format!("{a}/{b}"));
        for between in ["//", "/./"] {
            let other = parse(&format!("{a}{between}{b}"));
            assert_eq!(format!("{other:?}"), format!("{plain:?}"), "{a} {b}");
        }
    }
}

#[test]
fn wildcards_match_more_than_one_name() {
    assert!(!parsed("a/b").is_match_multiple());
    assert!(!parsed("a\\*").is_match_multiple());
    assert!(!parsed("../\\*\\?\\\\/./b").is_match_multiple());
    assert!(parsed("\\\\*").is_match_multiple());
    assert!(parsed("../\\*?").is_match_multiple());
    assert!(parsed("a?").is_match_multiple());
    assert!(parsed("a/*/b").is_match_multiple());
    assert!(parsed("**/b").is_match_multiple());
    assert!(!parsed("a").base_path.is_match_multiple());
    assert!(parsed("a/?").base_path.is_match_multiple());
    let any = FixedStr { patterns: vec![Pattern::AnyGraphemes(1)] };
    assert!(any.is_match_multiple());
    assert!(Pattern::AnyGraphemes(2).is_match_multiple());
}

#[test]
fn components_of_a_glob() {
    let kinds: Vec<&str> = segment("../a/**/")
        .iter()
        .map(|c| match c {
            Ok(Component::Seg(_)) => "segment",
            Ok(Component::Parent) => "parent",
            Ok(Component::AnyTree) => "tree",
            Ok(Component::TrailingSep) => "separator",
            Err(_) => "error",
        })
        .collect();
    assert_eq!(kinds, ["parent", "segment", "tree", "separator"]);
}

fn matches(glob: &str, text: &[u8]) -> bool {
    parsed(glob).base_path.segments[0].match_text(text)
}

#[test]
fn any_name_matches_the_wildcard() {
    for text in [&b""[..], b"a", b"\xFF\xFF", b"a\xC3\xA9\xFFb", b"\xE2\x82"] {
        assert!(matches("*", text), "{text:?}");
    }
}

#[test]
fn the_case_of_letters_makes_no_difference() {
    for glob in ["a*b", "*E\u{301}*", "?\u{C9}?", "foo*bar", "*\u{212A}*", "K*"] {
        for text in [
            &b"AxB"[..],
            b"foo\xFFBaR",
            "xe\u{301}x".as_bytes(),
            "a\u{e9}Z".as_bytes(),
            b"k\xE2\x82",
            b"[\x80Kz{",
        ] {
            let found = matches(glob, text);
            assert_eq!(matches(glob, &text.to_ascii_uppercase()), found, "{glob} {text:?}");
            assert_eq!(matches(glob, &text.to_ascii_lowercase()), found, "{glob} {text:?}");
        }
    }
}

#[test]
fn strings_are_found_wherever_they_can_be_placed() {
    // A near miss in front hides nothing.
    assert!(matches("*aab*", b"xaaab"));
    assert!(matches("*a*ab*", b"aab"));
    // The strings do not overlap.
    assert!(!matches("*ab*ba*", b"aba"));
    assert!(matches("*ab*ba*", b"abba"));
    // They come in order.
    assert!(!matches("*b*a*", b"ab"));
    // None reaches over broken bytes.
    assert!(!matches("*ab*", b"a\xFFb"));
    assert!(matches("*ab*", b"a\xFFab\xFF"));
}

#[test]
fn names_match_by_cluster() {
    // One cluster of two characters, then one of one.
    assert!(matches("?", "e\u{301}".as_bytes()));
    assert!(!matches("??", "e\u{301}".as_bytes()));
    assert!(matches("??", "ae\u{301}".as_bytes()));
    assert!(!matches("e?", "e\u{301}".as_bytes()));
    assert!(matches("e*", b"e"));
    assert!(!matches("e*e", b"e"));
    assert!(matches("\\?", b"?"));
    assert!(!matches("\\?", b"a"));
    assert!(!matches("a", b"a\xFF"));
    assert!(matches("a*", b"a\xFF"));
    assert!(matches("*a?c*", b"aac\xFFabc"));
    assert!(!matches("*a?c*", b"a\xFFc"));
}
