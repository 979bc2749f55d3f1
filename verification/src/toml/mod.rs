//! Source files in TOML, which are preprocessed and turned into JSON.
use crate::cli::Options;
use vstd::prelude::*;
use vstd::utf8::encode_utf8;

pub mod ending;
pub mod expansion;
pub mod line;
pub mod loops;
pub mod preprocess;
pub mod reached;

verus! {

/// `toml`'s error.
#[verifier::external_type_specification]
#[verifier::external_body]
pub struct ExTomlError(::toml::de::Error);

/// `serde_json`'s error.
#[verifier::external_type_specification]
#[verifier::external_body]
pub struct ExJsonError(serde_json::Error);

/// Why a text cannot be turned into JSON.
#[derive(Debug)]
pub enum TranscodeError {
    /// The text is not TOML.
    Parse(::toml::de::Error),
    /// What the text holds cannot be written as JSON.
    Transcode(serde_json::Error),
}

/// `toml`'s `Deserializer::parse` takes the text for TOML.
pub uninterp spec fn is_toml(text: Seq<char>) -> bool;

/// What `serde_transcode::transcode` writes to a `serde_json::Serializer` for a TOML text, if it
/// succeeds.
pub uninterp spec fn json_of(text: Seq<char>) -> Option<Seq<u8>>;

/// What `serde_transcode::transcode` writes to a `serde_json::Serializer` with a `PrettyFormatter` of
/// the given indentation for a TOML text, if it succeeds.
pub uninterp spec fn pretty_json_of(text: Seq<char>, indent: Seq<u8>) -> Option<Seq<u8>>;

/// `toml::Deserializer::parse` on the text, and `serde_transcode::transcode` of what it gives to a
/// `serde_json::Serializer` made by `Serializer::new`. What is parsed and written is a function of the
/// text, and goes by the names `is_toml` and `json_of`.
#[verifier::external_body]
fn transcode(text: &str) -> (r: Result<Vec<u8>, TranscodeError>)
    ensures
        r is Ok ==> is_toml(text@) && json_of(text@) == Some(r->Ok_0@),
        r is Err && r->Err_0 is Parse ==> !is_toml(text@),
        r is Err && r->Err_0 is Transcode ==> is_toml(text@) && json_of(text@) is None,
{
    let de = ::toml::Deserializer::parse(text).map_err(TranscodeError::Parse)?;
    let mut bytes = Vec::new();
    serde_transcode::transcode(de, &mut serde_json::Serializer::new(&mut bytes))
        .map_err(TranscodeError::Transcode)?;
    Ok(bytes)
}

/// `toml::Deserializer::parse` on the text, and `serde_transcode::transcode` of what it gives to a
/// `serde_json::Serializer` made by `Serializer::with_formatter` from
/// `PrettyFormatter::with_indent`. What is parsed and written is a function of the text and the
/// indentation, and goes by the names `is_toml` and `pretty_json_of`.
#[verifier::external_body]
fn transcode_pretty(text: &str, indent: &[u8]) -> (r: Result<Vec<u8>, TranscodeError>)
    ensures
        r is Ok ==> is_toml(text@) && pretty_json_of(text@, indent@) == Some(r->Ok_0@),
        r is Err && r->Err_0 is Parse ==> !is_toml(text@),
        r is Err && r->Err_0 is Transcode ==> is_toml(text@) && pretty_json_of(text@, indent@) is None,
{
    let de = ::toml::Deserializer::parse(text).map_err(TranscodeError::Parse)?;
    let mut bytes = Vec::new();
    let formatter = serde_json::ser::PrettyFormatter::with_indent(indent);
    let mut ser = serde_json::Serializer::with_formatter(&mut bytes, formatter);
    serde_transcode::transcode(de, &mut ser).map_err(TranscodeError::Transcode)?;
    Ok(bytes)
}

/// The byte that ends a line.
pub const NEWLINE: u8 = 10;

/// A source file that has been preprocessed.
#[derive(Debug)]
pub struct File {
    /// When the last of the files that it is made of was modified, if that is known.
    pub modified: Option<i128>,
    pub toml: String,
}

/// The JSON text that a file is written as, without its end.
pub open spec fn written(opts: Options, text: Seq<char>) -> Option<Seq<u8>> {
    match opts.pretty_print {
        None => json_of(text),
        Some(indent) => pretty_json_of(text, encode_utf8(indent@)),
    }
}

/// JSON text as it is written to a file: with a newline at its end.
pub fn finish_json(json: Vec<u8>) -> (r: Vec<u8>)
    ensures
        r@ == json@.push(NEWLINE),
{
    let mut json = json;
    json.push(NEWLINE);
    json
}

impl File {
    /// When the last of the files that this one is made of was modified, if that is known.
    pub fn modified(&self) -> (r: Option<i128>)
        ensures
            r == self.modified,
    {
        self.modified
    }

    /// What the file is built into.
    pub fn write(&self, opts: &Options) -> (r: Result<Vec<u8>, TranscodeError>)
        ensures
            match r {
                Ok(bytes) => is_toml(self.toml@) && written(*opts, self.toml@) is Some && bytes@
                    == written(*opts, self.toml@)->0.push(NEWLINE),
                Err(TranscodeError::Parse(_)) => !is_toml(self.toml@),
                Err(TranscodeError::Transcode(_)) => is_toml(self.toml@) && written(
                    *opts,
                    self.toml@,
                ) is None,
            },
    {
        let json = match opts.pretty_print {
            None => transcode(self.toml.as_str()),
            Some(indent) => transcode_pretty(self.toml.as_str(), indent.as_bytes()),
        };
        match json {
            Ok(bytes) => Ok(finish_json(bytes)),
            Err(e) => Err(e),
        }
    }
}

/// Data is written without white space, or indented by what it is to be indented with.
pub proof fn law_written(opts: Options, text: Seq<char>)
    ensures
        opts.pretty_print is None ==> written(opts, text) == json_of(text),
        opts.pretty_print matches Some(indent) ==> written(opts, text) == pretty_json_of(
            text,
            encode_utf8(indent@),
        ),
{
}

} // verus!
