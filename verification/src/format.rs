//! The formats in which secrets are written out.

use vstd::prelude::*;

verus! {

/// An output format.
#[derive(Debug, Clone, Copy, PartialEq, Eq)]
pub enum Format {
    /// One JSON object, label by label.
    Json,
    /// `LABEL=VALUE` lines.
    Dotenv,
    /// `export LABEL=VALUE` lines.
    Shell,
}

/// The format that goes by a name: `json`, `dotenv` or `shell`, in lower case
/// and with nothing around it. No other name is one.
pub open spec fn format_named(name: Seq<char>) -> Option<Format> {
    if name == "json"@ {
        Some(Format::Json)
    } else if name == "dotenv"@ {
        Some(Format::Dotenv)
    } else if name == "shell"@ {
        Some(Format::Shell)
    } else {
        None
    }
}

impl Format {
    /// Finds the format that goes by `name`.
    pub fn from_name(name: &str) -> (format: Option<Format>)
        ensures
            format == format_named(name@),
    {
        let name = name.to_owned();
        if name == "json".to_owned() {
            Some(Format::Json)
        } else if name == "dotenv".to_owned() {
            Some(Format::Dotenv)
        } else if name == "shell".to_owned() {
            Some(Format::Shell)
        } else {
            None
        }
    }
}

} // verus!
