//! The service's error kinds.

use vstd::prelude::*;

verus! {

/// Everything that can go wrong across the service. `NotFound` and
/// `Validation` are the kinds the engine itself raises; the others are
/// raised by the storage and transport layers around it.
#[derive(Debug, Clone)]
#[non_exhaustive]
pub enum Error {
    Unauthenticated,
    NotFound { resource: String },
    Validation { field: String, message: String },
    Duplicate { resource: String },
    Database { message: String },
    S3 { msg: String },
    MultipartParse { msg: String },
    Unknown { msg: String },
}

} // verus!
