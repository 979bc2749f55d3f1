use build_content_pack::cli::{Compression, Features, Options};
use build_content_pack::file::FileType;
use build_content_pack::out::{
    dir_options, file_options, normalize_relative_path, old_dir, old_file, OldDir, OutError, Output, ZipOptions,
    ZipPart,
};
use build_content_pack::svg::{
    finish_png, join_canonical_path, optimization, File, OptimizeOptions, Strip, SvgError,
    ZopfliOptions,
};

#[test]
fn relative_paths_are_normalized() {
    for (path, expected) in [
        ("", ""),
        (".", ""),
        ("a", "a/"),
        ("a/b", "a/b/"),
        ("a\\b", "a/b/"),
        ("./a//b/.", "a/b/"),
        ("a/../b", "b/"),
        ("a/b/../c", "a/c/"),
        ("a/b/../../c", "a/../c/"),
        ("..", ""),
        ("../a", "a/"),
        ("../../a", "../a/"),
        ("a/..", ""),
        ("...", ".../"),
    ] {
        assert_eq!(normalize_relative_path(path), expected, "{path:?}");
    }
}

fn names(names: &[&str]) -> Vec<Vec<u8>> {
    names.iter().map(|n| n.as_bytes().to_vec()).collect()
}

#[test]
fn archives_are_wrapped() {
    let (_, dirs) = Output::setup(None, Some("a/./b\\c"));
    assert_eq!(dirs, ["a", "a/b", "a/b/c"]);
    let (_, dirs) = Output::setup(Some(true), Some(""));
    assert!(dirs.is_empty());
    let (_, dirs) = Output::setup(Some(true), None);
    assert!(dirs.is_empty());
}

fn path(part: &ZipPart) -> Option<&str> {
    match part {
        ZipPart::Path(p) => Some(p),
        _ => None,
    }
}

#[test]
fn entries_of_an_archive() {
    let (mut out, _) = Output::setup(None, Some("w"));
    let mut pack = out.pack(b"Pack").expect("the pack is new");
    assert!(!pack.has_dir());
    assert_eq!(pack.zip_dir(), Ok(Some("w/Pack".to_string())));
    let mut sub = pack.dir(&out, b"sub").expect("the directory is new");
    assert_eq!(sub.zip_dir(), Ok(Some("w/Pack/sub".to_string())));
    let plan = sub.file(&out, b"f.json", None, None).expect("the file is new");
    assert!(!plan.write);
    assert!(!plan.skip());
    assert_eq!(path(&plan.zip), Some("w/Pack/sub/f.json"));
    let plan = pack.file(&out, b"f\xFF", None, None).expect("the file is new");
    assert!(matches!(plan.zip, ZipPart::NotUnicode));
    let broken = pack.dir(&out, b"\xFF").expect("the directory is new");
    assert_eq!(broken.zip_dir(), Err(OutError::NotUnicode));
}

#[test]
fn names_are_used_once() {
    let (mut out, _) = Output::setup(Some(false), None);
    let mut pack = out.pack(b"a").expect("the pack is new");
    assert_eq!(out.pack(b"a").err(), Some(OutError::Duplicate));
    assert!(out.pack(b"A").is_ok());
    assert!(pack.dir(&out, b"x").is_ok());
    assert_eq!(pack.dir(&out, b"x").err(), Some(OutError::Duplicate));
    assert_eq!(pack.file(&out, b"x", None, None).err(), Some(OutError::Duplicate));
    assert!(pack.file(&out, b"y", None, None).is_ok());
    assert_eq!(pack.dir(&out, b"y").err(), Some(OutError::Duplicate));
}

#[test]
fn files_that_are_up_to_date_are_kept() {
    let plan = |cache: bool, source: Option<i128>, built: Option<i128>| {
        let (mut out, _) = Output::setup(Some(cache), None);
        let mut pack = out.pack(b"p").expect("the pack is new");
        assert!(pack.has_dir());
        assert_eq!(pack.zip_dir(), Ok(None));
        let plan = pack.file(&out, b"f", source, built).expect("the file is new");
        assert!(matches!(plan.zip, ZipPart::Nothing));
        assert_eq!(plan.skip(), !plan.write);
        plan.write
    };
    assert!(!plan(true, Some(1), Some(2)));
    assert!(plan(true, Some(2), Some(1)));
    assert!(plan(true, Some(2), Some(2)));
    assert!(plan(true, None, Some(2)));
    assert!(plan(true, Some(1), None));
    assert!(plan(false, Some(1), Some(2)));
}

#[test]
fn what_is_left_over_is_found() {
    let (mut out, _) = Output::setup(Some(true), None);
    let mut pack = out.pack(b"a").expect("the pack is new");
    assert!(pack.file(&out, b"f", None, None).is_ok());
    assert!(pack.dir(&out, b"d").is_ok());
    assert_eq!(pack.finish(names(&["x", "f", "d", "F", "x"])), names(&["x", "F", "x"]));
    assert_eq!(out.finish(names(&["b", "a", "c"])), names(&["b", "c"]));
    let (out, _) = Output::setup(None, Some(""));
    assert!(out.finish(names(&["b"])).is_empty());
}

#[test]
fn what_was_in_the_place_of_a_directory() {
    assert_eq!(old_dir(None), OldDir::Create);
    assert_eq!(old_dir(Some(FileType::Dir)), OldDir::Keep);
    assert_eq!(old_dir(Some(FileType::File)), OldDir::RemoveFile);
    assert!(old_file(Some(FileType::Dir)));
    assert!(!old_file(Some(FileType::File)));
    assert!(!old_file(None));
}

#[test]
fn options_of_archives() {
    assert_eq!(
        file_options(Compression::Off),
        ZipOptions { deflated: false, level: None, zopfli_buffer: None, permissions: 0o664 },
    );
    assert_eq!(
        file_options(Compression::Normal),
        ZipOptions { deflated: true, level: Some(9), zopfli_buffer: None, permissions: 0o664 },
    );
    assert_eq!(
        dir_options(Compression::Max),
        ZipOptions {
            deflated: true,
            level: Some(73),
            zopfli_buffer: Some(1 << 16),
            permissions: 0o775,
        },
    );
}

fn options(compression: Compression) -> Options {
    Options { pretty_print: None, compression, features: Features { svg: true, toml: true } }
}

fn image(width: u32, height: u32) -> File {
    let pixels = (width * height) as usize;
    let rgba = (0..pixels).flat_map(|i| [i as u8, 0, 255, 255]).collect();
    File { modified: Some(1), width, height, rgba }
}

/// The size and the pixels of an image, taken from the file again.
fn decode(png: &[u8]) -> (u32, u32, Vec<u8>) {
    let mut decoder = png::Decoder::new(std::io::Cursor::new(png));
    decoder.set_transformations(png::Transformations::EXPAND | png::Transformations::ALPHA);
    let mut reader = decoder.read_info().unwrap();
    let mut pixels = vec![0; reader.output_buffer_size().unwrap()];
    let info = reader.next_frame(&mut pixels).unwrap();
    pixels.truncate(info.buffer_size());
    (info.width, info.height, pixels)
}

#[test]
fn images_are_encoded() {
    let image = image(3, 2);
    assert_eq!(image.modified(), Some(1));
    let png = image.write(&options(Compression::Off)).unwrap();
    assert_eq!(&png[..24], b"\x89PNG\r\n\x1a\n\0\0\0\rIHDR\0\0\0\x03\0\0\0\x02");
    assert_eq!(&png[png.len() - 12..], b"\0\0\0\0IEND\xAE\x42\x60\x82");
    assert_eq!(decode(&png), (3, 2, image.rgba.clone()));
    assert!(matches!(
        File { modified: None, width: 0, height: 2, rgba: vec![] }.write(&options(Compression::Off)),
        Err(SvgError::Encode(_)),
    ));
}

#[test]
fn images_are_optimized() {
    let mut image = image(32, 32);
    image.rgba = [10, 20, 30, 255].repeat(32 * 32);
    let plain = image.write(&options(Compression::Off)).unwrap();
    let (png, how) = image.encoded(&options(Compression::Max)).unwrap();
    assert_eq!(png, plain);
    assert_eq!(how, optimization(Compression::Max));
    for compression in [Compression::Normal, Compression::Max] {
        let png = image.write(&options(compression)).unwrap();
        assert!(png.len() < plain.len());
        assert_eq!(png[..24], plain[..24]);
        assert_eq!(png[png.len() - 12..], plain[plain.len() - 12..]);
        assert_eq!(decode(&png), (32, 32, image.rgba.clone()));
    }
}

#[test]
fn images_of_all_sizes_are_optimized() {
    for (width, height) in [(1, 1), (1, 7), (5, 1), (3, 2)] {
        let image = image(width, height);
        let png = image.write(&options(Compression::Off)).unwrap();
        let small = image.write(&options(Compression::Normal)).unwrap();
        assert!(small.len() <= png.len());
        assert_eq!((decode(&small).0, decode(&small).1), (width, height));
    }
    for (width, height) in [(0, 0), (0, 2), (3, 0)] {
        let empty = File { modified: None, width, height, rgba: vec![] };
        assert!(matches!(empty.write(&options(Compression::Normal)), Err(SvgError::Encode(_))));
    }
}

#[test]
fn how_images_are_optimized() {
    assert_eq!(optimization(Compression::Off), None);
    assert_eq!(
        optimization(Compression::Normal),
        Some(OptimizeOptions { preset: 4, optimize_alpha: true, strip: Strip::All, zopfli: None }),
    );
    let zopfli =
        ZopfliOptions { iterations: 64, iterations_without_improvement: 8, block_splits: 16 };
    assert_eq!(
        optimization(Compression::Max),
        Some(OptimizeOptions {
            preset: 6,
            optimize_alpha: true,
            strip: Strip::All,
            zopfli: Some(zopfli),
        }),
    );
    assert_eq!(finish_png(Ok(vec![1])).ok(), Some(vec![1]));
    let failed = oxipng::optimize_from_memory(b"no image", &oxipng::Options::default());
    assert!(matches!(finish_png(failed), Err(SvgError::Optimize(_))));
}

#[test]
fn references_get_the_separators_of_the_system() {
    assert_eq!(join_canonical_path("a/b//c", '\\'), "a\\b\\\\c");
    assert_eq!(join_canonical_path("a/b", '/'), "a/b");
    assert_eq!(join_canonical_path("", '\\'), "");
}
