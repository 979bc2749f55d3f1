//! Source images in SVG, which are rendered and written as PNG.
use crate::cli::{Compression, Options};
use crate::text::chars;
use vstd::prelude::*;

verus! {

/// `png`'s error.
#[verifier::external_type_specification]
#[verifier::external_body]
pub struct ExEncodingError(png::EncodingError);

/// `oxipng`'s error.
#[verifier::external_type_specification]
#[verifier::external_body]
pub struct ExPngError(oxipng::PngError);

/// Why an image cannot be written.
#[derive(Debug)]
pub enum SvgError {
    /// The image has no pixels.
    Encode(png::EncodingError),
    /// The optimizer has failed.
    Optimize(oxipng::PngError),
}

/// The bytes of a number, the most significant first.
pub open spec fn be_bytes(n: u32) -> Seq<u8> {
    seq![
        (n / 0x100_0000) as u8,
        (n / 0x1_0000 % 0x100) as u8,
        (n / 0x100 % 0x100) as u8,
        (n % 0x100) as u8,
    ]
}

/// What a PNG file of an image of that size starts with: the signature, the length and the name of the
/// header, and the size.
pub open spec fn png_start(width: u32, height: u32) -> Seq<u8> {
    seq![0x89u8, 0x50, 0x4E, 0x47, 0x0D, 0x0A, 0x1A, 0x0A] + seq![0u8, 0, 0, 13] + seq![
        0x49u8,
        0x48,
        0x44,
        0x52,
    ] + be_bytes(width) + be_bytes(height)
}

/// What every PNG file ends with: a chunk that marks the end.
pub open spec fn png_end() -> Seq<u8> {
    seq![0u8, 0, 0, 0, 0x49, 0x45, 0x4E, 0x44, 0xAE, 0x42, 0x60, 0x82]
}

/// The bytes are framed as a PNG file of an image of that size is. Between its first chunk, which is the
/// header, and its last, there is at least one of image data.
pub open spec fn is_png_sized(bytes: Seq<u8>, width: u32, height: u32) -> bool {
    &&& bytes.len() >= 57
    &&& bytes.take(24) == png_start(width, height)
    &&& bytes.skip(bytes.len() - 12) == png_end()
}

/// The files that hold an image. Without options it is the one that `png`'s encoder makes of it, and with
/// options those that `oxipng` makes of a file of it by them, which go by numbers: on another machine it
/// may make another one.
pub uninterp spec fn png_of(
    width: u32,
    height: u32,
    rgba: Seq<u8>,
    how: Option<OptimizeOptions>,
    number: nat,
) -> Seq<u8>;

/// There are as many bytes as the pixels of an image of that size take, and there are pixels.
pub open spec fn is_image(width: u32, height: u32, rgba: Seq<u8>) -> bool {
    width > 0 && height > 0 && rgba.len() == 4 * width * height
}

/// The bytes are a file of an image.
pub open spec fn is_file_of(bytes: Seq<u8>, width: u32, height: u32, rgba: Seq<u8>) -> bool {
    exists|how: Option<OptimizeOptions>, number: nat|
        bytes == #[trigger] png_of(width, height, rgba, how, number)
}

/// What is read out of the bytes is that image: they are a file of it and of no other.
pub open spec fn decodes_to(bytes: Seq<u8>, width: u32, height: u32, rgba: Seq<u8>) -> bool {
    &&& is_file_of(bytes, width, height, rgba)
    &&& forall|w: u32, h: u32, p: Seq<u8>|
        is_image(w, h, p) && #[trigger] is_file_of(bytes, w, h, p) ==> w == width && h == height && p
            == rgba
}

/// The images look the same: they have the same opacity everywhere, and the same colours wherever they
/// are not fully transparent.
pub open spec fn looks_same(a: Seq<u8>, b: Seq<u8>) -> bool {
    &&& a.len() == b.len()
    &&& forall|i: int|
        0 <= i && 4 * i + 3 < a.len() ==> #[trigger] a[4 * i + 3] == b[4 * i + 3] && (a[4 * i + 3] != 0
            ==> a[4 * i] == b[4 * i] && a[4 * i + 1] == b[4 * i + 1] && a[4 * i + 2] == b[4 * i + 2])
}

/// The bytes are what `oxipng` makes by the options of a file of an image: a file of one that looks the
/// same.
pub open spec fn is_optimized(
    bytes: Seq<u8>,
    width: u32,
    height: u32,
    rgba: Seq<u8>,
    options: OptimizeOptions,
) -> bool {
    exists|shown: Seq<u8>, number: nat|
        bytes == #[trigger] png_of(width, height, shown, Some(options), number) && looks_same(
            rgba,
            shown,
        ) && decodes_to(bytes, width, height, shown)
}

/// `png`'s `Encoder`, set to eight-bit RGBA without compression or filters, and its `write_header`,
/// `write_image_data` and `finish`, writing to memory. They fail exactly if the image has no pixels.
/// What they write is a function of the image, and goes by the name `png_of`: the signature, the
/// header, the data, and the end. The image can be read out of it again. All this is said of data of the
/// image's size only: for a larger size than can be counted, they may panic.
#[verifier::external_body]
fn encode(width: u32, height: u32, rgba: &[u8]) -> (r: Result<Vec<u8>, png::EncodingError>)
    requires
        rgba@.len() == 4 * width * height,
    ensures
        r is Ok == (width > 0 && height > 0),
        r is Ok ==> r->Ok_0@ == png_of(width, height, rgba@, None, 0),
        r is Ok ==> is_png_sized(r->Ok_0@, width, height),
        r is Ok ==> decodes_to(r->Ok_0@, width, height, rgba@),
{
    let mut bytes = Vec::new();
    let mut encoder = png::Encoder::new(&mut bytes, width, height);
    encoder.set_color(png::ColorType::Rgba);
    encoder.set_depth(png::BitDepth::Eight);
    encoder.set_compression(png::Compression::NoCompression);
    encoder.set_filter(png::Filter::NoFilter);
    let mut writer = encoder.write_header()?;
    writer.write_image_data(rgba)?;
    writer.finish()?;
    Ok(bytes)
}

/// How hard Zopfli tries.
#[derive(Clone, Copy, Debug, PartialEq, Eq, Structural)]
pub struct ZopfliOptions {
    pub iterations: u64,
    pub iterations_without_improvement: u64,
    pub block_splits: u16,
}

/// Which chunks that are not needed to show an image are left out.
#[derive(Clone, Copy, Debug, PartialEq, Eq, Structural)]
pub enum Strip {
    Nothing,
    Safe,
    All,
}

/// How an image is optimized.
#[derive(Clone, Copy, Debug, PartialEq, Eq, Structural)]
pub struct OptimizeOptions {
    /// The preset that the other options are taken from.
    pub preset: u8,
    /// Whether transparent pixels may be altered.
    pub optimize_alpha: bool,
    pub strip: Strip,
    /// How data is compressed, if not as the preset has it.
    pub zopfli: Option<ZopfliOptions>,
}

/// How images are optimized, if they are.
pub open spec fn optimize_options(compression: Compression) -> Option<OptimizeOptions> {
    match compression {
        Compression::Off => None,
        Compression::Normal => Some(
            OptimizeOptions {
                preset: 4,
                optimize_alpha: true,
                strip: Strip::All,
                zopfli: None,
            },
        ),
        Compression::Max => Some(
            OptimizeOptions {
                preset: 6,
                optimize_alpha: true,
                strip: Strip::All,
                zopfli: Some(
                    ZopfliOptions {
                        iterations: 64,
                        iterations_without_improvement: 8,
                        block_splits: 16,
                    },
                ),
            },
        ),
    }
}

/// How images are optimized, if they are.
pub fn optimization(compression: Compression) -> (r: Option<OptimizeOptions>)
    ensures
        r == optimize_options(compression),
{
    match compression {
        Compression::Off => None,
        Compression::Normal => Some(
            OptimizeOptions {
                preset: 4,
                optimize_alpha: true,
                strip: Strip::All,
                zopfli: None,
            },
        ),
        Compression::Max => Some(
            OptimizeOptions {
                preset: 6,
                optimize_alpha: true,
                strip: Strip::All,
                zopfli: Some(
                    ZopfliOptions {
                        iterations: 64,
                        iterations_without_improvement: 8,
                        block_splits: 16,
                    },
                ),
            },
        ),
    }
}

/// The optimizer can count what it counts in an image of that size. It has 32 bits for each count: for
/// the neighbours of a colour, of which each pixel has four, for the bytes that it writes, and for a
/// measure of a row, which is no more than its bytes times their logarithm.
pub open spec fn can_optimize(width: u32, height: u32) -> bool {
    &&& width < 0x100_0000
    &&& 4 * width * height <= 0x7FFF_FFFF
}

/// `oxipng::optimize_from_memory`, with the options of a preset and those that are given. It is said of
/// what `png`'s encoder makes of an image only, and one that it can count: for a size that is claimed
/// and not there it may panic, and where its counts overflow. An image of eight bits is never expanded,
/// which is where it multiplies width and height in 32 bits. It succeeds: it fails on files that it
/// cannot read only, and it can read what the encoder writes; where a compressor fails, it does without
/// what that would have made. What it returns is no larger than what it is given, and a file of an image
/// of the same size: no reduction changes the size, which is written as it was read, and if nothing is
/// gained what was given is handed back. The image looks the same. It is stored without loss, but for the
/// colours of pixels that are fully transparent, which it may change to make the file smaller. No more is
/// said of what it writes. It takes the shortest of what several compressors make of the data, and those
/// may make something else of it on another machine, by its word order and its logarithms.
#[verifier::external_body]
fn optimize(png: &[u8], options: OptimizeOptions) -> (r: Result<Vec<u8>, oxipng::PngError>)
    requires
        options.zopfli matches Some(z) ==> z.iterations > 0 && z.iterations_without_improvement > 0,
        exists|width: u32, height: u32, rgba: Seq<u8>|
            png@ == #[trigger] png_of(width, height, rgba, None, 0) && rgba.len() == 4 * width * height
                && width > 0 && height > 0 && can_optimize(width, height),
    ensures
        r is Ok,
        r->Ok_0@.len() <= png@.len(),
        r->Ok_0@.len() >= 57,
        r->Ok_0@.take(24) == png@.take(24),
        r->Ok_0@.skip(r->Ok_0@.len() - 12) == png_end(),
        forall|width: u32, height: u32, rgba: Seq<u8>|
            png@ == #[trigger] png_of(width, height, rgba, None, 0) && is_image(width, height, rgba)
                ==> is_optimized(r->Ok_0@, width, height, rgba, options),
{
    let mut oxi = oxipng::Options::from_preset(options.preset);
    oxi.optimize_alpha = options.optimize_alpha;
    oxi.strip = match options.strip {
        Strip::Nothing => oxipng::StripChunks::None,
        Strip::Safe => oxipng::StripChunks::Safe,
        Strip::All => oxipng::StripChunks::All,
    };
    let zopfli = options.zopfli.map(|z| oxipng::Deflater::Zopfli(oxipng::ZopfliOptions {
        iteration_count: z.iterations.try_into().unwrap(),
        iterations_without_improvement: z.iterations_without_improvement.try_into().unwrap(),
        maximum_block_splits: z.block_splits,
    }));
    oxi.deflater = zopfli.unwrap_or(oxi.deflater);
    oxipng::optimize_from_memory(png, &oxi)
}

/// An image that has been rendered.
#[derive(Debug)]
pub struct File {
    /// When the last of the files that it is made of was modified, if that is known.
    pub modified: Option<i128>,
    pub width: u32,
    pub height: u32,
    /// The pixels in rows from the top, a byte each for red, green, blue and opacity.
    pub rgba: Vec<u8>,
}

impl File {
    /// When the last of the files that this one is made of was modified, if that is known.
    pub fn modified(&self) -> (r: Option<i128>)
        ensures
            r == self.modified,
    {
        self.modified
    }

    /// The encoded image, and how it is to be optimized, if it is.
    pub fn encoded(&self, opts: &Options) -> (r: Result<
        (Vec<u8>, Option<OptimizeOptions>),
        png::EncodingError,
    >)
        requires
            self.rgba@.len() == 4 * self.width * self.height,
        ensures
            r is Ok <==> self.width > 0 && self.height > 0,
            r matches Ok((png, options)) ==> {
                &&& png@ == png_of(self.width, self.height, self.rgba@, None, 0)
                &&& decodes_to(png@, self.width, self.height, self.rgba@)
                &&& is_png_sized(png@, self.width, self.height)
                &&& options == optimize_options(opts.compression)
            },
    {
        match encode(self.width, self.height, &self.rgba) {
            Ok(png) => Ok((png, optimization(opts.compression))),
            Err(e) => Err(e),
        }
    }

    /// What the file is built into: a PNG file of an image that looks like this one. It is the encoded
    /// image if nothing is to be compressed, and else what the optimizer makes of that, which is no
    /// larger. An image that is to be compressed is one that the optimizer can count.
    pub fn write(&self, opts: &Options) -> (r: Result<Vec<u8>, SvgError>)
        requires
            self.rgba@.len() == 4 * self.width * self.height,
            optimize_options(opts.compression) is Some ==> can_optimize(self.width, self.height),
        ensures
            r is Ok <==> self.width > 0 && self.height > 0,
            r is Err ==> r matches Err(SvgError::Encode(_)),
            r matches Ok(bytes) ==> is_png_sized(bytes@, self.width, self.height),
            r matches Ok(bytes) ==> (match optimize_options(opts.compression) {
                None => bytes@ == png_of(self.width, self.height, self.rgba@, None, 0),
                Some(_) => bytes@.len() <= png_of(self.width, self.height, self.rgba@, None, 0).len(),
            }),
            r matches Ok(bytes) ==> is_written(
                bytes@,
                self.width,
                self.height,
                self.rgba@,
                optimize_options(opts.compression),
            ),
    {
        match self.encoded(opts) {
            Ok((png, None)) => Ok(png),
            Ok((png, Some(options))) => finish_png(optimize(&png, options)),
            Err(e) => Err(SvgError::Encode(e)),
        }
    }
}

/// The bytes are what an image is written as, optimized by the options if there are any.
pub open spec fn is_written(
    bytes: Seq<u8>,
    width: u32,
    height: u32,
    rgba: Seq<u8>,
    how: Option<OptimizeOptions>,
) -> bool {
    match how {
        None => bytes == png_of(width, height, rgba, None, 0) && decodes_to(
            bytes,
            width,
            height,
            rgba,
        ),
        Some(options) => is_optimized(bytes, width, height, rgba, options),
    }
}

/// Whatever image is read out of what an image was written as, it has the size of that image, the same
/// opacity in every pixel, and the same colour in every pixel that is not fully transparent.
pub proof fn law_image_kept(
    bytes: Seq<u8>,
    width: u32,
    height: u32,
    rgba: Seq<u8>,
    how: Option<OptimizeOptions>,
    w: u32,
    h: u32,
    pixels: Seq<u8>,
    i: int,
)
    requires
        is_written(bytes, width, height, rgba, how),
        is_file_of(bytes, w, h, pixels),
        is_image(w, h, pixels),
        0 <= i,
        4 * i + 3 < rgba.len(),
    ensures
        w == width,
        h == height,
        pixels.len() == rgba.len(),
        pixels[4 * i + 3] == rgba[4 * i + 3],
        rgba[4 * i + 3] > 0 ==> pixels[4 * i] == rgba[4 * i] && pixels[4 * i + 1] == rgba[4 * i + 1]
            && pixels[4 * i + 2] == rgba[4 * i + 2],
        how is None ==> pixels == rgba,
{
}

/// Something is read out of what an image was written as.
pub proof fn law_image_read(
    bytes: Seq<u8>,
    width: u32,
    height: u32,
    rgba: Seq<u8>,
    how: Option<OptimizeOptions>,
)
    requires
        is_image(width, height, rgba),
        is_written(bytes, width, height, rgba, how),
    ensures
        exists|pixels: Seq<u8>|
            is_image(width, height, pixels) && #[trigger] is_file_of(bytes, width, height, pixels),
{
    if let Some(options) = how {
        let (shown, number) = choose|shown: Seq<u8>, number: nat|
            bytes == #[trigger] png_of(width, height, shown, Some(options), number) && looks_same(
                rgba,
                shown,
            ) && decodes_to(bytes, width, height, shown);
        assert(is_file_of(bytes, width, height, shown));
    } else {
        assert(is_file_of(bytes, width, height, rgba));
    }
}

/// What is written when the optimizer is done.
pub fn finish_png(optimized: Result<Vec<u8>, oxipng::PngError>) -> (r: Result<Vec<u8>, SvgError>)
    ensures
        match optimized {
            Ok(png) => r == Ok::<Vec<u8>, SvgError>(png),
            Err(e) => r == Err::<Vec<u8>, SvgError>(SvgError::Optimize(e)),
        },
{
    match optimized {
        Ok(png) => Ok(png),
        Err(e) => Err(SvgError::Optimize(e)),
    }
}

/// A reference with the separators that paths have on this system.
pub fn join_canonical_path(href: &str, separator: char) -> (r: String)
    ensures
        r@ == href@.map_values(
            |c: char|
                if c == '/' {
                    separator
                } else {
                    c
                },
        ),
{
    let chars = chars(href);
    let mut r = String::new();
    let mut i: usize = 0;
    while i < chars.len()
        invariant
            chars@ == href@,
            i <= chars@.len(),
            r@ == href@.take(i as int).map_values(
                |c: char|
                    if c == '/' {
                        separator
                    } else {
                        c
                    },
            ),
        decreases chars@.len() - i,
    {
        r.push(
            if chars[i] == '/' {
                separator
            } else {
                chars[i]
            },
        );
        i += 1;
    }
    assert(href@.take(i as int) =~= href@);
    r
}

} // verus!
