//! Errors.

use crate::path::MediaPath;
use crate::text::lossy_text;
use vstd::prelude::*;

verus! {

/// Why an operation was given up.
#[derive(Debug)]
#[non_exhaustive]
pub enum LumeError {
    /// The file system or a socket failed.
    Io(String),
    /// The vector store rejected an operation.
    Store(String),
    /// The sidecar cannot be reached, or what it says makes no sense.
    Sidecar(String),
    /// A configuration is invalid.
    Config(ConfigError),
    /// An item is not in the store.
    NotFound(String),
}

/// Why a configuration is invalid.
#[derive(Clone, Debug, PartialEq)]
#[non_exhaustive]
pub enum ConfigError {
    /// A field has a value that it must not have.
    Invalid { field: &'static str, reason: String },
    /// A path is empty or malformed.
    BadPath(MediaPath),
}

/// The text of a [`ConfigError`].
pub open spec fn config_error_text(error: ConfigError) -> Seq<char> {
    match error {
        ConfigError::Invalid { field, reason } => field@ + ": "@ + reason@,
        ConfigError::BadPath(path) => "bad path: "@ + lossy_text(path@),
    }
}

/// The text of a [`LumeError`].
pub open spec fn error_text(error: LumeError) -> Seq<char> {
    match error {
        LumeError::Io(why) => "io error: "@ + why@,
        LumeError::Store(why) => "vector store error: "@ + why@,
        LumeError::Sidecar(why) => "sidecar transport error: "@ + why@,
        LumeError::Config(why) => "invalid config: "@ + config_error_text(why),
        LumeError::NotFound(what) => "not found: "@ + what@,
    }
}

fn after(prefix: &str, text: &str) -> (whole: String)
    ensures
        whole@ == prefix@ + text@,
{
    let mut whole: String = prefix.to_string();
    whole.append(text);
    whole
}

impl ConfigError {
    /// Says what is wrong.
    pub fn to_text(&self) -> (text: String)
        ensures
            text@ == config_error_text(*self),
    {
        match self {
            ConfigError::Invalid { field, reason } => after(
                after(field, ": ").as_str(),
                reason.as_str(),
            ),
            ConfigError::BadPath(path) => after("bad path: ", path.to_text().as_str()),
        }
    }
}

impl LumeError {
    /// Says what went wrong.
    pub fn to_text(&self) -> (text: String)
        ensures
            text@ == error_text(*self),
    {
        match self {
            LumeError::Io(why) => after("io error: ", why.as_str()),
            LumeError::Store(why) => after("vector store error: ", why.as_str()),
            LumeError::Sidecar(why) => after("sidecar transport error: ", why.as_str()),
            LumeError::Config(why) => after("invalid config: ", why.to_text().as_str()),
            LumeError::NotFound(what) => after("not found: ", what.as_str()),
        }
    }
}

impl From<ConfigError> for LumeError {
    fn from(error: ConfigError) -> (wrapped: LumeError) {
        LumeError::Config(error)
    }
}

impl vstd::std_specs::convert::FromSpecImpl<ConfigError> for LumeError {
    open spec fn obeys_from_spec() -> bool {
        true
    }

    open spec fn from_spec(error: ConfigError) -> LumeError {
        LumeError::Config(error)
    }
}

/// The text of an error says what the error holds, at its end. So errors of one kind
/// that hold different texts say different things.
pub proof fn lemma_text_says_why(error: LumeError)
    ensures
        error matches LumeError::Io(why) ==> why@.is_suffix_of(error_text(error)),
        error matches LumeError::Store(why) ==> why@.is_suffix_of(error_text(error)),
        error matches LumeError::Sidecar(why) ==> why@.is_suffix_of(error_text(error)),
        error matches LumeError::NotFound(what) ==> what@.is_suffix_of(error_text(error)),
        error matches LumeError::Config(why) ==> config_error_text(why).is_suffix_of(
            error_text(error),
        ),
        error matches LumeError::Config(ConfigError::Invalid { field, reason })
            ==> field@.is_prefix_of(config_error_text(error->Config_0)) && reason@.is_suffix_of(
            config_error_text(error->Config_0),
        ),
{
    match error {
        LumeError::Io(why) => {
            lemma_suffix("io error: "@, why@);
        },
        LumeError::Store(why) => {
            lemma_suffix("vector store error: "@, why@);
        },
        LumeError::Sidecar(why) => {
            lemma_suffix("sidecar transport error: "@, why@);
        },
        LumeError::NotFound(what) => {
            lemma_suffix("not found: "@, what@);
        },
        LumeError::Config(why) => {
            lemma_suffix("invalid config: "@, config_error_text(why));
            if let ConfigError::Invalid { field, reason } = why {
                lemma_suffix(field@ + ": "@, reason@);
                assert(config_error_text(why).take(field@.len() as int) =~= field@);
            }
        },
    }
}

proof fn lemma_suffix(prefix: Seq<char>, text: Seq<char>)
    ensures
        text.is_suffix_of(prefix + text),
{
    assert((prefix + text).skip(prefix.len() as int) =~= text);
}

}
