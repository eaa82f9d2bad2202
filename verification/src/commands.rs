//! Decisions of the command-line tool that do not touch files: the export
//! format a render or build writes.
use vstd::prelude::*;
use crate::text::str_ends_with;

verus! {

/// The formats a document can be exported to.
#[derive(Debug, Clone, Copy, PartialEq, Eq, Structural)]
pub enum ExportFormat {
    Png,
    Svg,
    Pdf,
}

/// The lower-case form of a string, as std's `str::to_lowercase` maps it
/// (the Unicode lower-case mapping).
pub uninterp spec fn lowercase(s: Seq<char>) -> Seq<char>;

/// The lower-case form of a string.
///
/// Wraps `str::to_lowercase`; its result is named `lowercase` and depends on
/// the string only.
#[verifier::external_body]
fn to_lower(s: &str) -> (r: String)
    ensures
        r@ == lowercase(s@),
{
    s.to_lowercase()
}

/// The format an explicit (lower-cased) format name selects: SVG, PDF, or
/// PNG for any other name.
pub open spec fn format_named(name: Seq<char>) -> ExportFormat {
    if name == "svg"@ {
        ExportFormat::Svg
    } else if name == "pdf"@ {
        ExportFormat::Pdf
    } else {
        ExportFormat::Png
    }
}

/// The format an output path's extension selects: SVG for ".svg", PDF for
/// ".pdf", else PNG.
pub open spec fn format_of_path(output: Seq<char>) -> ExportFormat {
    if output.len() >= 4 && output.subrange(output.len() - 4, output.len() as int) == ".svg"@ {
        ExportFormat::Svg
    } else if output.len() >= 4 && output.subrange(output.len() - 4, output.len() as int)
        == ".pdf"@ {
        ExportFormat::Pdf
    } else {
        ExportFormat::Png
    }
}

/// Executable `format_named`.
pub fn format_from_name(name: &str) -> (r: ExportFormat)
    ensures
        r == format_named(name@),
{
    if crate::text::str_eq(name, "svg") {
        ExportFormat::Svg
    } else if crate::text::str_eq(name, "pdf") {
        ExportFormat::Pdf
    } else {
        ExportFormat::Png
    }
}

/// The export format of a render: the format flag when given (compared
/// without regard to case), else the output path's extension.
pub fn detect_format(output: &str, format_flag: Option<&str>) -> (r: ExportFormat)
    ensures
        r == match format_flag {
            Some(f) => format_named(lowercase(f@)),
            None => format_of_path(output@),
        },
{
    if let Some(f) = format_flag {
        let lower = to_lower(f);
        return format_from_name(lower.as_str());
    }
    proof {
        reveal_strlit(".svg");
        reveal_strlit(".pdf");
    }
    if str_ends_with(output, ".svg") {
        ExportFormat::Svg
    } else if str_ends_with(output, ".pdf") {
        ExportFormat::Pdf
    } else {
        ExportFormat::Png
    }
}

} // verus!
