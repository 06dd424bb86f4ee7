//! Failures of the policy store and of showing the policy file.

use vstd::prelude::*;

verus! {

/// A failure to read, write or show the policy file at `path`; `source` is
/// the underlying error's text.
#[derive(Debug)]
pub enum AnnieError {
    LoadConfigError { source: String, path: String },
    SaveConfigError { source: String, path: String },
    ShowConfigError { source: String, path: String },
}

pub open spec fn error_text(e: AnnieError) -> Seq<char> {
    match e {
        AnnieError::LoadConfigError { source, path } => "cannot read config file at "@ + path@ + ": "@
            + source@,
        AnnieError::SaveConfigError { source, path } => "cannot write config file to "@ + path@
            + ": "@ + source@,
        AnnieError::ShowConfigError { source, path } => "cannot show config file in explorer at "@
            + path@ + ": "@ + source@,
    }
}

impl AnnieError {
    /// The error as a sentence naming the file and the cause.
    pub fn message(&self) -> (r: String)
        ensures
            r@ == error_text(*self),
    {
        match self {
            AnnieError::LoadConfigError { source, path } => String::from_str(
                "cannot read config file at ",
            ).concat(path.as_str()).concat(": ").concat(source.as_str()),
            AnnieError::SaveConfigError { source, path } => String::from_str(
                "cannot write config file to ",
            ).concat(path.as_str()).concat(": ").concat(source.as_str()),
            AnnieError::ShowConfigError { source, path } => String::from_str(
                "cannot show config file in explorer at ",
            ).concat(path.as_str()).concat(": ").concat(source.as_str()),
        }
    }
}

} // verus!
