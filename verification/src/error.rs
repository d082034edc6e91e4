//! The errors of reading and of writing out, and what they say.
//!
//! An error of a parser or of the system is carried along as it came; its
//! own words are all that is asked of it.

use vstd::prelude::*;

verus! {

/// An error of the JSON parser or serialiser.
#[verifier::external_type_specification]
#[verifier::external_body]
pub struct ExJsonError(serde_json::Error);

/// An error of the YAML parser.
#[verifier::external_type_specification]
#[verifier::external_body]
pub struct ExYamlError(serde_yaml::Error);

/// An error of the TOML parser.
#[verifier::external_type_specification]
#[verifier::external_body]
pub struct ExTomlError(toml::de::Error);

/// An error of reading or writing.
#[verifier::external_type_specification]
#[verifier::external_body]
pub struct ExIoError(std::io::Error);

/// What a JSON error says of itself: its `Display` form. Nothing is claimed
/// of the text.
#[verifier::external_body]
fn json_error_text(e: &serde_json::Error) -> (r: String) {
    e.to_string()
}

/// What a YAML error says of itself: its `Display` form. Nothing is claimed
/// of the text.
#[verifier::external_body]
fn yaml_error_text(e: &serde_yaml::Error) -> (r: String) {
    e.to_string()
}

/// What a TOML error says of itself: its `Display` form. Nothing is claimed
/// of the text.
#[verifier::external_body]
fn toml_error_text(e: &toml::de::Error) -> (r: String) {
    e.to_string()
}

/// What an error of reading says of itself: its `Display` form. Nothing is
/// claimed of the text.
#[verifier::external_body]
fn io_error_text(e: &std::io::Error) -> (r: String) {
    e.to_string()
}

/// A document could not be read or understood.
#[derive(Debug)]
#[allow(inconsistent_fields)]
pub enum ParseError {
    FileNotFound { path: String },
    ReadError { path: String, source: std::io::Error },
    JsonError { path: String, source: serde_json::Error },
    YamlError { path: String, source: serde_yaml::Error },
    TomlError { path: String, source: toml::de::Error },
    UnknownFormat { path: String },
}

/// A diff could not be written out.
#[derive(Debug)]
pub enum OutputError {
    UnknownFormat { format: String },
    JsonSerializationError { source: serde_json::Error },
}

/// Anything that can go wrong.
#[derive(Debug)]
pub enum SdiffError {
    Parse(ParseError),
    Output(OutputError),
    ConfigError { message: String },
}

/// A message that names a document and ends in the words of the error that
/// was met: the opening words, the name, a colon and a space, the words.
pub open spec fn sourced(opening: Seq<char>, path: Seq<char>, words: Seq<char>) -> Seq<char> {
    opening + path + ": "@ + words
}

/// Puts a message that ends in the words of an error together.
pub fn sourced_message(opening: &str, path: &str, words: &str) -> (r: String)
    ensures
        r@ == sourced(opening@, path@, words@),
{
    let mut out = String::from_str(opening);
    out.append(path);
    out.append(": ");
    out.append(words);
    out
}

fn prefixed(opening: &str, rest: &str) -> (r: String)
    ensures
        r@ == opening@ + rest@,
{
    let mut out = String::from_str(opening);
    out.append(rest);
    out
}

impl ParseError {
    pub fn file_not_found(path: &str) -> (r: ParseError)
        ensures
            r matches ParseError::FileNotFound { path: p } && p@ == path@,
    {
        ParseError::FileNotFound { path: String::from_str(path) }
    }

    pub fn read_error(path: &str, source: std::io::Error) -> (r: ParseError)
        ensures
            r matches ParseError::ReadError { path: p, source: s } && p@ == path@ && s == source,
    {
        ParseError::ReadError { path: String::from_str(path), source }
    }

    pub fn json_error(path: &str, source: serde_json::Error) -> (r: ParseError)
        ensures
            r matches ParseError::JsonError { path: p, source: s } && p@ == path@ && s == source,
    {
        ParseError::JsonError { path: String::from_str(path), source }
    }

    pub fn yaml_error(path: &str, source: serde_yaml::Error) -> (r: ParseError)
        ensures
            r matches ParseError::YamlError { path: p, source: s } && p@ == path@ && s == source,
    {
        ParseError::YamlError { path: String::from_str(path), source }
    }

    pub fn toml_error(path: &str, source: toml::de::Error) -> (r: ParseError)
        ensures
            r matches ParseError::TomlError { path: p, source: s } && p@ == path@ && s == source,
    {
        ParseError::TomlError { path: String::from_str(path), source }
    }

    pub fn unknown_format(path: &str) -> (r: ParseError)
        ensures
            r matches ParseError::UnknownFormat { path: p } && p@ == path@,
    {
        ParseError::UnknownFormat { path: String::from_str(path) }
    }

    /// Whether `text` is what the error says: for an error that carries
    /// another, the message ends in some words of that other error.
    pub open spec fn says(self, text: Seq<char>) -> bool {
        match self {
            ParseError::FileNotFound { path } => text == "File not found: "@ + path@,
            ParseError::ReadError { path, source } => exists|words: Seq<char>|
                text == #[trigger] sourced("Failed to read file "@, path@, words),
            ParseError::JsonError { path, source } => exists|words: Seq<char>|
                text == #[trigger] sourced("Invalid JSON in "@, path@, words),
            ParseError::YamlError { path, source } => exists|words: Seq<char>|
                text == #[trigger] sourced("Invalid YAML in "@, path@, words),
            ParseError::TomlError { path, source } => exists|words: Seq<char>|
                text == #[trigger] sourced("Invalid TOML in "@, path@, words),
            ParseError::UnknownFormat { path } => text == "Could not detect file format for "@
                + path@,
        }
    }

    /// What the error says.
    pub fn message(&self) -> (r: String)
        ensures
            self.says(r@),
    {
        match self {
            ParseError::FileNotFound { path } => prefixed("File not found: ", path.as_str()),
            ParseError::ReadError { path, source } => {
                let words = io_error_text(source);
                sourced_message("Failed to read file ", path.as_str(), words.as_str())
            },
            ParseError::JsonError { path, source } => {
                let words = json_error_text(source);
                sourced_message("Invalid JSON in ", path.as_str(), words.as_str())
            },
            ParseError::YamlError { path, source } => {
                let words = yaml_error_text(source);
                sourced_message("Invalid YAML in ", path.as_str(), words.as_str())
            },
            ParseError::TomlError { path, source } => {
                let words = toml_error_text(source);
                sourced_message("Invalid TOML in ", path.as_str(), words.as_str())
            },
            ParseError::UnknownFormat { path } => prefixed(
                "Could not detect file format for ",
                path.as_str(),
            ),
        }
    }
}

impl OutputError {
    /// Whether `text` is what the error says.
    pub open spec fn says(self, text: Seq<char>) -> bool {
        match self {
            OutputError::UnknownFormat { format } => text == "Unknown output format: "@ + format@,
            OutputError::JsonSerializationError { source } => exists|words: Seq<char>|
                text == "Failed to serialize to JSON: "@ + words,
        }
    }

    /// What the error says.
    pub fn message(&self) -> (r: String)
        ensures
            self.says(r@),
    {
        match self {
            OutputError::UnknownFormat { format } => prefixed(
                "Unknown output format: ",
                format.as_str(),
            ),
            OutputError::JsonSerializationError { source } => {
                let words = json_error_text(source);
                prefixed("Failed to serialize to JSON: ", words.as_str())
            },
        }
    }
}

impl SdiffError {
    /// Whether `text` is what the error says: what the error that it
    /// carries says, or what is wrong with the configuration.
    pub open spec fn says(self, text: Seq<char>) -> bool {
        match self {
            SdiffError::Parse(e) => e.says(text),
            SdiffError::Output(e) => e.says(text),
            SdiffError::ConfigError { message } => text == "Invalid configuration: "@ + message@,
        }
    }

    /// What the error says.
    pub fn message(&self) -> (r: String)
        ensures
            self.says(r@),
    {
        match self {
            SdiffError::Parse(e) => e.message(),
            SdiffError::Output(e) => e.message(),
            SdiffError::ConfigError { message } => prefixed(
                "Invalid configuration: ",
                message.as_str(),
            ),
        }
    }
}

impl From<ParseError> for SdiffError {
    fn from(e: ParseError) -> (r: SdiffError) {
        SdiffError::Parse(e)
    }
}

impl vstd::std_specs::convert::FromSpecImpl<ParseError> for SdiffError {
    open spec fn obeys_from_spec() -> bool {
        true
    }

    open spec fn from_spec(e: ParseError) -> SdiffError {
        SdiffError::Parse(e)
    }
}

impl From<OutputError> for SdiffError {
    fn from(e: OutputError) -> (r: SdiffError) {
        SdiffError::Output(e)
    }
}

impl vstd::std_specs::convert::FromSpecImpl<OutputError> for SdiffError {
    open spec fn obeys_from_spec() -> bool {
        true
    }

    open spec fn from_spec(e: OutputError) -> SdiffError {
        SdiffError::Output(e)
    }
}

} // verus!
