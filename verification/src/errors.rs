//! Errors of rendering, exporting, containers and reading stored documents, each with
//! the message it is reported with.
use vstd::prelude::*;
use vstd::string::StringExecFns;
use crate::text::{concat2, decimal, decimal_string};

verus! {

/// Why rendering failed.
#[derive(Debug, Clone)]
pub enum RenderError {
    EmptyScene,
    InvalidPath(String),
    PixmapCreationFailed { width: u32, height: u32 },
    BooleanOpFailed(String),
}

/// Why exporting failed; an input/output failure carries the system's
/// message.
#[derive(Debug, Clone)]
pub enum ExportError {
    PngEncodeFailed(String),
    SvgGenerationFailed(String),
    PdfGenerationFailed(String),
    Io(String),
}

/// Why a container could not be opened or saved; input/output, JSON and ZIP
/// failures carry the underlying message.
#[derive(Debug, Clone)]
pub enum ContainerError {
    Io(String),
    Json(String),
    StdinNotSaveable,
    Zip(String),
}

/// Why a stored document could not be turned into a loaded one.
#[derive(Debug, Clone)]
pub enum WireError {
    UnknownReference(String),
}

impl RenderError {
    /// The message of the error.
    pub open spec fn spec_message(&self) -> Seq<char> {
        match self {
            RenderError::EmptyScene => "empty scene — no canvas roots"@,
            RenderError::InvalidPath(s) => "invalid path: "@ + s@,
            RenderError::PixmapCreationFailed { width, height } => "pixmap creation failed: "@
                + decimal(*width as nat) + "x"@ + decimal(*height as nat),
            RenderError::BooleanOpFailed(s) => "boolean operation failed: "@ + s@,
        }
    }

    /// The message of the error.
    pub fn message(&self) -> (r: String)
        ensures
            r@ == self.spec_message(),
    {
        match self {
            RenderError::EmptyScene => String::from_str("empty scene — no canvas roots"),
            RenderError::InvalidPath(s) => concat2("invalid path: ", s.as_str()),
            RenderError::PixmapCreationFailed { width, height } => {
                let mut r = String::from_str("pixmap creation failed: ");
                let w = decimal_string(*width as u64);
                r.append(w.as_str());
                r.append("x");
                let h = decimal_string(*height as u64);
                r.append(h.as_str());
                r
            },
            RenderError::BooleanOpFailed(s) => concat2("boolean operation failed: ", s.as_str()),
        }
    }
}

impl ExportError {
    /// The message of the error.
    pub open spec fn spec_message(&self) -> Seq<char> {
        match self {
            ExportError::PngEncodeFailed(s) => "PNG encoding failed: "@ + s@,
            ExportError::SvgGenerationFailed(s) => "SVG generation failed: "@ + s@,
            ExportError::PdfGenerationFailed(s) => "PDF generation failed: "@ + s@,
            ExportError::Io(s) => "IO error: "@ + s@,
        }
    }

    /// The message of the error.
    pub fn message(&self) -> (r: String)
        ensures
            r@ == self.spec_message(),
    {
        match self {
            ExportError::PngEncodeFailed(s) => concat2("PNG encoding failed: ", s.as_str()),
            ExportError::SvgGenerationFailed(s) => concat2("SVG generation failed: ", s.as_str()),
            ExportError::PdfGenerationFailed(s) => concat2("PDF generation failed: ", s.as_str()),
            ExportError::Io(s) => concat2("IO error: ", s.as_str()),
        }
    }
}

impl ContainerError {
    /// The message of the error.
    pub open spec fn spec_message(&self) -> Seq<char> {
        match self {
            ContainerError::Io(s) => "io error: "@ + s@,
            ContainerError::Json(s) => "json error: "@ + s@,
            ContainerError::StdinNotSaveable => "cannot save a stdin-sourced container without an explicit path"@,
            ContainerError::Zip(s) => "zip error: "@ + s@,
        }
    }

    /// The message of the error.
    pub fn message(&self) -> (r: String)
        ensures
            r@ == self.spec_message(),
    {
        match self {
            ContainerError::Io(s) => concat2("io error: ", s.as_str()),
            ContainerError::Json(s) => concat2("json error: ", s.as_str()),
            ContainerError::StdinNotSaveable => String::from_str(
                "cannot save a stdin-sourced container without an explicit path",
            ),
            ContainerError::Zip(s) => concat2("zip error: ", s.as_str()),
        }
    }
}

impl WireError {
    /// The message of the error.
    pub open spec fn spec_message(&self) -> Seq<char> {
        match self {
            WireError::UnknownReference(s) => "unknown stable_id reference: "@ + s@,
        }
    }

    /// The message of the error.
    pub fn message(&self) -> (r: String)
        ensures
            r@ == self.spec_message(),
    {
        match self {
            WireError::UnknownReference(s) => concat2("unknown stable_id reference: ", s.as_str()),
        }
    }
}

} // verus!
