//! Human-readable texts of the library's errors.
use vstd::prelude::*;
use vstd::string::StringExecFns;

use crate::format::{ExtractError, ParseError};
use crate::pack::PackError;
use crate::unpack::{append_decimal, decimal, UnpackError};
use crate::validate::ValidateError;

verus! {

/// Text of a parse error.
pub open spec fn parse_error_text(e: ParseError) -> Seq<char> {
    match e {
        ParseError::BadCover => "RIFF cover without MCZd chunk"@,
        ParseError::Truncated => "header or index truncated"@,
        ParseError::BadMagic => "bad magic"@,
        ParseError::UnsupportedVersion(v) => "unsupported version "@ + decimal(v as nat),
        ParseError::UnknownFormat(b) => "unknown image format "@ + decimal(b as nat),
    }
}

/// Text of an extract error.
pub open spec fn extract_error_text(e: ExtractError) -> Seq<char> {
    match e {
        ExtractError::PageOutOfRange => "page out of range"@,
        ExtractError::DataTruncated => "page data truncated"@,
    }
}

/// Text of a validation error.
pub open spec fn validate_error_text(e: ValidateError) -> Seq<char> {
    match e {
        ValidateError::Parse(p) => "parse error: "@ + parse_error_text(p),
        ValidateError::Extract(i, x) => "page "@ + decimal(i as nat) + ": "@ + extract_error_text(x),
        ValidateError::ZeroDimensions(i) => "page "@ + decimal(i as nat) + ": zero width or height"@,
    }
}

/// Calls `ToString::to_string` on an I/O error. Nothing is claimed of the text: it
/// may come from the operating system.
#[verifier::external_body]
fn io_error_text(e: &std::io::Error) -> String {
    e.to_string()
}

/// A string holding the literal `s`.
fn text(s: &str) -> (r: String)
    ensures
        r@ == s@,
{
    String::from_str(s)
}

impl ParseError {
    /// The text of this error.
    pub fn message(&self) -> (r: String)
        ensures
            r@ == parse_error_text(*self),
    {
        proof {
            reveal_strlit("RIFF cover without MCZd chunk");
            reveal_strlit("header or index truncated");
            reveal_strlit("bad magic");
            reveal_strlit("unsupported version ");
            reveal_strlit("unknown image format ");
        }
        match self {
            ParseError::BadCover => text("RIFF cover without MCZd chunk"),
            ParseError::Truncated => text("header or index truncated"),
            ParseError::BadMagic => text("bad magic"),
            ParseError::UnsupportedVersion(v) => {
                let mut s = text("unsupported version ");
                append_decimal(&mut s, *v as u128);
                s
            },
            ParseError::UnknownFormat(b) => {
                let mut s = text("unknown image format ");
                append_decimal(&mut s, *b as u128);
                s
            },
        }
    }
}

impl ExtractError {
    /// The text of this error.
    pub fn message(&self) -> (r: String)
        ensures
            r@ == extract_error_text(*self),
    {
        proof {
            reveal_strlit("page out of range");
            reveal_strlit("page data truncated");
        }
        match self {
            ExtractError::PageOutOfRange => text("page out of range"),
            ExtractError::DataTruncated => text("page data truncated"),
        }
    }
}

impl ValidateError {
    /// The text of this error.
    pub fn message(&self) -> (r: String)
        ensures
            r@ == validate_error_text(*self),
    {
        proof {
            reveal_strlit("parse error: ");
            reveal_strlit("page ");
            reveal_strlit(": ");
            reveal_strlit(": zero width or height");
        }
        match self {
            ValidateError::Parse(p) => {
                let mut s = text("parse error: ");
                let m = p.message();
                s.append(m.as_str());
                s
            },
            ValidateError::Extract(i, x) => {
                let mut s = text("page ");
                append_decimal(&mut s, *i as u128);
                s.append(": ");
                let m = x.message();
                s.append(m.as_str());
                s
            },
            ValidateError::ZeroDimensions(i) => {
                let mut s = text("page ");
                append_decimal(&mut s, *i as u128);
                s.append(": zero width or height");
                s
            },
        }
    }
}

/// `r` starts with `prefix`.
pub open spec fn starts_with(r: Seq<char>, prefix: Seq<char>) -> bool {
    r.len() >= prefix.len() && r.subrange(0, prefix.len() as int) == prefix
}

impl UnpackError {
    /// The text of this error. That of an I/O error comes from the I/O error itself.
    pub fn message(&self) -> (r: String)
        ensures
            match self {
                UnpackError::Io(_) => starts_with(r@, "io error: "@),
                UnpackError::Parse(p) => r@ == "parse error: "@ + parse_error_text(*p),
                UnpackError::Extract(x) => r@ == "extract error: "@ + extract_error_text(*x),
            },
    {
        proof {
            reveal_strlit("io error: ");
            reveal_strlit("parse error: ");
            reveal_strlit("extract error: ");
        }
        match self {
            UnpackError::Io(e) => {
                let mut s = text("io error: ");
                let t = io_error_text(e);
                s.append(t.as_str());
                assert(s@.subrange(0, 10) =~= "io error: "@);
                s
            },
            UnpackError::Parse(p) => {
                let mut s = text("parse error: ");
                let m = p.message();
                s.append(m.as_str());
                s
            },
            UnpackError::Extract(x) => {
                let mut s = text("extract error: ");
                let m = x.message();
                s.append(m.as_str());
                s
            },
        }
    }
}

impl PackError {
    /// The text of this error. That of an I/O error comes from the I/O error itself.
    pub fn message(&self) -> (r: String)
        ensures
            match self {
                PackError::Io(_) => starts_with(r@, "io error: "@),
                PackError::TooManyPages(n) => r@ == "too many pages: "@ + decimal(*n as nat)
                    + " > 65535"@,
                PackError::PageTooLarge(i, n) => r@ == "page "@ + decimal(*i as nat)
                    + " too large: "@ + decimal(*n as nat) + " bytes > 4294967295"@,
                PackError::ArchiveTooLarge(n) => r@ == "archive too large: "@ + decimal(*n as nat)
                    + " bytes > 4294967295"@,
                PackError::NoImages => r@ == "no images found in directory"@,
                PackError::Image(path, e) => r@ == "failed to process "@ + path@ + ": "@ + e@,
            },
    {
        proof {
            reveal_strlit("io error: ");
            reveal_strlit("too many pages: ");
            reveal_strlit(" > 65535");
            reveal_strlit("page ");
            reveal_strlit(" too large: ");
            reveal_strlit(" bytes > 4294967295");
            reveal_strlit("archive too large: ");
            reveal_strlit("no images found in directory");
            reveal_strlit("failed to process ");
            reveal_strlit(": ");
        }
        match self {
            PackError::Io(e) => {
                let mut s = text("io error: ");
                let t = io_error_text(e);
                s.append(t.as_str());
                assert(s@.subrange(0, 10) =~= "io error: "@);
                s
            },
            PackError::TooManyPages(n) => {
                let mut s = text("too many pages: ");
                append_decimal(&mut s, *n as u128);
                s.append(" > 65535");
                s
            },
            PackError::PageTooLarge(i, n) => {
                let mut s = text("page ");
                append_decimal(&mut s, *i as u128);
                s.append(" too large: ");
                append_decimal(&mut s, *n as u128);
                s.append(" bytes > 4294967295");
                s
            },
            PackError::ArchiveTooLarge(n) => {
                let mut s = text("archive too large: ");
                append_decimal(&mut s, *n as u128);
                s.append(" bytes > 4294967295");
                s
            },
            PackError::NoImages => text("no images found in directory"),
            PackError::Image(path, e) => {
                let mut s = text("failed to process ");
                s.append(path.as_str());
                s.append(": ");
                s.append(e.as_str());
                s
            },
        }
    }
}

} // verus!
