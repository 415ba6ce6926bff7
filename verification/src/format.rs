//! The two formats in which a document can be extracted.

use vstd::prelude::*;

use crate::text::{ascii_lower, lower_chars, opt_str, same_text, to_chars, trim, trim_chars};

verus! {

/// The format of extracted content.
#[derive(Debug, Clone, Copy, PartialEq, Eq, Structural)]
pub enum OutputFormat {
    Markdown,
    Text,
}

/// The format that a request asks for: `text`, in any ASCII case and with white
/// space around it, for plain text; anything else for Markdown.
pub open spec fn requested_format(value: Option<Seq<char>>) -> OutputFormat {
    match value {
        Some(name) => if ascii_lower(trim(name)) == "text"@ {
            OutputFormat::Text
        } else {
            OutputFormat::Markdown
        },
        None => OutputFormat::Markdown,
    }
}

/// The name of a format.
pub open spec fn format_name(format: OutputFormat) -> Seq<char> {
    match format {
        OutputFormat::Markdown => "markdown"@,
        OutputFormat::Text => "text"@,
    }
}

impl OutputFormat {
    /// Reads the format that a request asks for.
    pub fn parse(value: Option<&str>) -> (format: Self)
        ensures
            format == requested_format(opt_str(value)),
    {
        match value {
            Some(name) => {
                let chars = to_chars(name);
                let lower = lower_chars(trim_chars(chars.as_slice()));
                if same_text(lower.as_slice(), "text") {
                    OutputFormat::Text
                } else {
                    OutputFormat::Markdown
                }
            },
            None => OutputFormat::Markdown,
        }
    }

    /// The name of the format.
    pub fn as_str(self) -> (name: &'static str)
        ensures
            name@ == format_name(self),
    {
        match self {
            OutputFormat::Markdown => "markdown",
            OutputFormat::Text => "text",
        }
    }
}

} // verus!
