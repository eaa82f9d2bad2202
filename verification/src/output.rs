//! The JSON responses of the command-line tool (success, validation and
//! error reports) and its exit codes.
use vstd::prelude::*;
use vstd::string::StringExecFns;
use crate::text::{decimal, usize_string};

verus! {

/// Exit code: success.
pub const EXIT_OK: i32 = 0;
/// Exit code: parse and validation errors.
pub const EXIT_INPUT: i32 = 1;
/// Exit code: file input/output errors.
pub const EXIT_IO: i32 = 2;
/// Exit code: render and export errors.
pub const EXIT_PROCESS: i32 = 3;
/// Exit code: unexpected errors.
pub const EXIT_INTERNAL: i32 = 4;

/// A non-fatal remark about an input.
#[derive(Debug, Clone)]
pub struct Warning {
    pub path: String,
    pub code: String,
    pub message: String,
}

/// A problem found in an input, with where it is and possibly a hint.
#[derive(Debug, Clone)]
pub struct ValidationIssue {
    pub path: String,
    pub code: String,
    pub message: String,
    pub suggestion: Option<String>,
}

/// Success report, with the written path and optionally the rendered size.
#[derive(Debug)]
pub struct OkResponse {
    pub status: &'static str,
    pub path: Option<String>,
    pub width: Option<u32>,
    pub height: Option<u32>,
    pub warnings: Vec<Warning>,
}

/// Result of validating a document.
#[derive(Debug)]
pub struct ValidateResponse {
    pub valid: bool,
    pub errors: Vec<ValidationIssue>,
    pub warnings: Vec<Warning>,
}

/// Failure report.
#[derive(Debug)]
pub struct ErrorResponse {
    pub status: &'static str,
    pub code: String,
    pub phase: Option<String>,
    pub message: String,
    pub suggestion: Option<String>,
    pub errors: Vec<ValidationIssue>,
}

/// The content of a design guide.
#[derive(Debug)]
pub struct GuideContentResponse {
    pub status: &'static str,
    pub format: &'static str,
    pub content: String,
}

/// The list of available design guides.
#[derive(Debug)]
pub struct GuideListResponse {
    pub status: &'static str,
    pub layers: Vec<GuideLayerInfo>,
}

/// One design guide in a list.
#[derive(Debug)]
pub struct GuideLayerInfo {
    pub id: String,
    pub name: String,
    pub contexts: Vec<String>,
}

/// Model of an optional string.
pub open spec fn opt_view(o: Option<String>) -> Option<Seq<char>> {
    match o {
        Some(s) => Some(s@),
        None => None,
    }
}

impl OkResponse {
    /// Success with the path that was written.
    pub fn with_path(path: &str) -> (r: Self)
        ensures
            r.status@ == "ok"@,
            opt_view(r.path) == Some(path@),
            r.width is None,
            r.height is None,
            r.warnings@.len() == 0,
    {
        OkResponse {
            status: "ok",
            path: Some(String::from_str(path)),
            width: None,
            height: None,
            warnings: Vec::new(),
        }
    }

    /// Success with the path that was written and the rendered size.
    pub fn with_render(path: &str, width: u32, height: u32) -> (r: Self)
        ensures
            r.status@ == "ok"@,
            opt_view(r.path) == Some(path@),
            r.width == Some(width),
            r.height == Some(height),
            r.warnings@.len() == 0,
    {
        OkResponse {
            status: "ok",
            path: Some(String::from_str(path)),
            width: Some(width),
            height: Some(height),
            warnings: Vec::new(),
        }
    }
}

impl ErrorResponse {
    /// Failure with a code, the phase it happened in, and a message.
    pub fn new(code: &str, phase: &str, message: &str) -> (r: Self)
        ensures
            r.status@ == "error"@,
            r.code@ == code@,
            opt_view(r.phase) == Some(phase@),
            r.message@ == message@,
            r.suggestion is None,
            r.errors@.len() == 0,
    {
        ErrorResponse {
            status: "error",
            code: String::from_str(code),
            phase: Some(String::from_str(phase)),
            message: String::from_str(message),
            suggestion: None,
            errors: Vec::new(),
        }
    }

    /// Failure of validation, carrying the issues found; the message counts
    /// them ("N validation error(s)").
    pub fn validation(errors: Vec<ValidationIssue>) -> (r: Self)
        ensures
            r.status@ == "error"@,
            r.code@ == "VALIDATION_FAILED"@,
            opt_view(r.phase) == Some("validate"@),
            r.message@ == decimal(errors@.len()) + " validation error(s)"@,
            r.suggestion is None,
            r.errors@ == errors@,
    {
        let mut message = usize_string(errors.len());
        message.append(" validation error(s)");
        ErrorResponse {
            status: "error",
            code: String::from_str("VALIDATION_FAILED"),
            phase: Some(String::from_str("validate")),
            message,
            suggestion: None,
            errors,
        }
    }
}

impl ValidateResponse {
    /// The report for an input that could not be parsed at all.
    pub fn parse_failed(message: String) -> (r: Self)
        ensures
            !r.valid,
            r.errors@.len() == 1,
            r.errors@[0].path@ == Seq::<char>::empty(),
            r.errors@[0].code@ == "PARSE_FAILED"@,
            r.errors@[0].message@ == message@,
            r.errors@[0].suggestion is None,
            r.warnings@.len() == 0,
    {
        let mut errors = Vec::new();
        errors.push(
            ValidationIssue {
                path: String::new(),
                code: String::from_str("PARSE_FAILED"),
                message,
                suggestion: None,
            },
        );
        ValidateResponse { valid: false, errors, warnings: Vec::new() }
    }
}

} // verus!
