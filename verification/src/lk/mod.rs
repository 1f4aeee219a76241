//! Legend Keeper worlds: schema, stores and the world builder.

pub mod archive;
pub mod board_gen;
pub mod builder;
pub mod io;
pub mod pos;
pub mod schema;
pub mod store;


use vstd::prelude::*;

verus! {

/// Errors of world queries and world building.
#[derive(Debug, Clone)]
pub enum LkError {
    WorldNotFound(String),
    ResourceNotFound(String),
    CalendarNotFound(String),
    InvalidInput(String),
    Io(String),
    Json(String),
    Http(String),
    DraftResourceNotFound(String),
    DraftDocumentNotFound(String),
}

/// The text of an error, as it is shown to a user.
pub open spec fn error_text(e: LkError) -> Seq<char> {
    match e {
        LkError::WorldNotFound(s) => "World not found: "@ + s@,
        LkError::ResourceNotFound(s) => "Resource not found: "@ + s@,
        LkError::CalendarNotFound(s) => "Calendar not found: "@ + s@,
        LkError::InvalidInput(s) => "Invalid input: "@ + s@,
        LkError::Io(s) => "IO error: "@ + s@,
        LkError::Json(s) => "JSON error: "@ + s@,
        LkError::Http(s) => "HTTP error: "@ + s@,
        LkError::DraftResourceNotFound(s) => "Draft resource not found: "@ + s@,
        LkError::DraftDocumentNotFound(s) => "Draft document not found: "@ + s@,
    }
}

impl LkError {
    /// The text of the error.
    pub fn to_string(&self) -> (r: String)
        ensures
            r@ == error_text(*self),
    {
        let (prefix, detail) = match self {
            LkError::WorldNotFound(s) => ("World not found: ", s),
            LkError::ResourceNotFound(s) => ("Resource not found: ", s),
            LkError::CalendarNotFound(s) => ("Calendar not found: ", s),
            LkError::InvalidInput(s) => ("Invalid input: ", s),
            LkError::Io(s) => ("IO error: ", s),
            LkError::Json(s) => ("JSON error: ", s),
            LkError::Http(s) => ("HTTP error: ", s),
            LkError::DraftResourceNotFound(s) => ("Draft resource not found: ", s),
            LkError::DraftDocumentNotFound(s) => ("Draft document not found: ", s),
        };
        let mut r = String::new();
        r.push_str(prefix);
        r.push_str(detail.as_str());
        r
    }
}

} // verus!
