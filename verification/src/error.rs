//! The library's error type.
use vstd::prelude::*;

verus! {

/// Errors that can occur during HTML-to-PDF conversion.
#[derive(Debug)]
pub enum IronpressError {
    ParseError(String),
    CssError(String),
    LayoutError(String),
    RenderError(String),
    FontError(String),
    /// An input/output failure, carried as the text of the underlying error.
    IoError(String),
    SecurityError(String),
}

impl IronpressError {
    /// The human-readable text of the error: a fixed prefix per kind, then the detail.
    pub open spec fn display_text(&self) -> Seq<char> {
        match self {
            IronpressError::ParseError(m) => "HTML parsing error: "@ + m@,
            IronpressError::CssError(m) => "CSS parsing error: "@ + m@,
            IronpressError::LayoutError(m) => "Layout error: "@ + m@,
            IronpressError::RenderError(m) => "PDF rendering error: "@ + m@,
            IronpressError::FontError(m) => "Font error: "@ + m@,
            IronpressError::IoError(m) => "IO error: "@ + m@,
            IronpressError::SecurityError(m) => "Security error: input rejected: "@ + m@,
        }
    }

    /// Renders the error as text.
    pub fn to_string(&self) -> (s: String)
        ensures
            s@ == self.display_text(),
    {
        match self {
            IronpressError::ParseError(m) => String::from_str("HTML parsing error: ").concat(
                m.as_str(),
            ),
            IronpressError::CssError(m) => String::from_str("CSS parsing error: ").concat(
                m.as_str(),
            ),
            IronpressError::LayoutError(m) => String::from_str("Layout error: ").concat(m.as_str()),
            IronpressError::RenderError(m) => String::from_str("PDF rendering error: ").concat(
                m.as_str(),
            ),
            IronpressError::FontError(m) => String::from_str("Font error: ").concat(m.as_str()),
            IronpressError::IoError(m) => String::from_str("IO error: ").concat(m.as_str()),
            IronpressError::SecurityError(m) => String::from_str(
                "Security error: input rejected: ",
            ).concat(m.as_str()),
        }
    }
}

} // verus!
