//! Polygon files that hold gaussian splats or point clouds: header, layout of
//! the vertex rows, and binary payload.
pub mod declaring;
pub mod header;
pub mod layout;
pub mod reader;
pub mod rows;
pub mod writer;

use vstd::prelude::*;
use vstd::string::StringExecFns;

use crate::text::dec_string;

verus! {

#[derive(Debug)]
pub enum PlyError {
    Io(String),
    NotPly,
    UnsupportedFormat(String),
    BadHeader(String),
    NoVertexElement,
    BadPropertyType(String),
    UnexpectedEof { expected: usize, got: usize },
    UnknownLayout { properties: String },
    BadShCount(usize),
}

/// `PlyError` with its strings as character sequences.
pub enum PlyErrorView {
    Io(Seq<char>),
    NotPly,
    UnsupportedFormat(Seq<char>),
    BadHeader(Seq<char>),
    NoVertexElement,
    BadPropertyType(Seq<char>),
    UnexpectedEof { expected: usize, got: usize },
    UnknownLayout { properties: Seq<char> },
    BadShCount(usize),
}

impl View for PlyError {
    type V = PlyErrorView;

    open spec fn view(&self) -> PlyErrorView {
        match *self {
            PlyError::Io(s) => PlyErrorView::Io(s@),
            PlyError::NotPly => PlyErrorView::NotPly,
            PlyError::UnsupportedFormat(s) => PlyErrorView::UnsupportedFormat(s@),
            PlyError::BadHeader(s) => PlyErrorView::BadHeader(s@),
            PlyError::NoVertexElement => PlyErrorView::NoVertexElement,
            PlyError::BadPropertyType(s) => PlyErrorView::BadPropertyType(s@),
            PlyError::UnexpectedEof { expected, got } => PlyErrorView::UnexpectedEof {
                expected,
                got,
            },
            PlyError::UnknownLayout { properties } => PlyErrorView::UnknownLayout {
                properties: properties@,
            },
            PlyError::BadShCount(n) => PlyErrorView::BadShCount(n),
        }
    }
}

/// `a` with `b` behind it.
pub(crate) fn joined(a: &str, b: &str) -> (s: String)
    ensures
        s@ == a@ + b@,
{
    let mut s = String::from_str(a);
    s.append(b);
    s
}

/// A header error with this text.
pub(crate) fn bad_header(text: &str) -> (e: PlyError)
    ensures
        e@ == PlyErrorView::BadHeader(text@),
{
    PlyError::BadHeader(String::from_str(text))
}

impl PlyErrorView {
    /// The message shown to a user.
    pub open spec fn message(self) -> Seq<char> {
        match self {
            PlyErrorView::Io(s) => "i/o error: "@ + s,
            PlyErrorView::NotPly => "not a ply file (missing 'ply' magic)"@,
            PlyErrorView::UnsupportedFormat(s) => "unsupported ply format `"@ + s
                + "` (only binary_little_endian 1.0 is supported)"@,
            PlyErrorView::BadHeader(s) => "malformed ply header: "@ + s,
            PlyErrorView::NoVertexElement => "no `vertex` element in ply header"@,
            PlyErrorView::BadPropertyType(s) => "vertex property `"@ + s
                + "` has unsupported type (expected float)"@,
            PlyErrorView::UnexpectedEof { expected, got } => "file ended early: expected "@
                + crate::text::dec(expected as nat) + " vertices, payload holds "@
                + crate::text::dec(got as nat),
            PlyErrorView::UnknownLayout { properties } =>
            "not a gaussian splat ply — vertex properties are ["@ + properties
                + "]. Splat files carry f_dc_*/opacity/scale_*/rot_* (see PLAN.md formats)"@,
            PlyErrorView::BadShCount(n) => "f_rest count "@ + crate::text::dec(n as nat)
                + " does not match any SH degree (expected 0, 9, 24, or 45)"@,
        }
    }
}

impl PlyError {
    /// The message shown to a user.
    pub fn message(&self) -> (m: String)
        ensures
            m@ == self@.message(),
    {
        match self {
            PlyError::Io(s) => joined("i/o error: ", s.as_str()),
            PlyError::NotPly => String::from_str("not a ply file (missing 'ply' magic)"),
            PlyError::UnsupportedFormat(s) => {
                let mut m = joined("unsupported ply format `", s.as_str());
                m.append("` (only binary_little_endian 1.0 is supported)");
                m
            },
            PlyError::BadHeader(s) => joined("malformed ply header: ", s.as_str()),
            PlyError::NoVertexElement => String::from_str("no `vertex` element in ply header"),
            PlyError::BadPropertyType(s) => {
                let mut m = joined("vertex property `", s.as_str());
                m.append("` has unsupported type (expected float)");
                m
            },
            PlyError::UnexpectedEof { expected, got } => {
                let mut m = joined(
                    "file ended early: expected ",
                    dec_string(*expected as u64).as_str(),
                );
                m.append(" vertices, payload holds ");
                m.append(dec_string(*got as u64).as_str());
                m
            },
            PlyError::UnknownLayout { properties } => {
                let mut m = joined(
                    "not a gaussian splat ply — vertex properties are [",
                    properties.as_str(),
                );
                m.append("]. Splat files carry f_dc_*/opacity/scale_*/rot_* (see PLAN.md formats)");
                m
            },
            PlyError::BadShCount(n) => {
                let mut m = joined("f_rest count ", dec_string(*n as u64).as_str());
                m.append(" does not match any SH degree (expected 0, 9, 24, or 45)");
                m
            },
        }
    }
}

} // verus!
