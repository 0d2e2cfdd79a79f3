use vstd::prelude::*;
use vstd::string::StringExecFns;

verus! {

/// The error taxonomy of the query layer.
///
/// Every operation reports failures through this type rather than aborting:
/// a failed lookup by id is `NotFound`, a patch with an unrecognized field
/// name is `ValidationError`, a rejected mutation is `Unauthorized`, a
/// creation under an identifier that already exists is `DuplicateKey`, and
/// an opaque failure of the underlying document store is `StoreError`.
#[derive(Clone, Copy, Debug, PartialEq, Eq, Structural)]
pub enum ServiceError {
    NotFound,
    ValidationError,
    Unauthorized,
    DuplicateKey,
    StoreError,
}

/// The text that `ServiceError::message` returns for each variant.
pub open spec fn message_spec(e: ServiceError) -> Seq<char> {
    match e {
        ServiceError::NotFound => "not found"@,
        ServiceError::ValidationError => "validation error"@,
        ServiceError::Unauthorized => "unauthorized"@,
        ServiceError::DuplicateKey => "duplicate key"@,
        ServiceError::StoreError => "store error"@,
    }
}

impl ServiceError {
    /// A short description of the error, for the transport layer to surface.
    pub fn message(&self) -> (r: String)
        ensures
            r@ == message_spec(*self),
    {
        match self {
            ServiceError::NotFound => String::from_str("not found"),
            ServiceError::ValidationError => String::from_str("validation error"),
            ServiceError::Unauthorized => String::from_str("unauthorized"),
            ServiceError::DuplicateKey => String::from_str("duplicate key"),
            ServiceError::StoreError => String::from_str("store error"),
        }
    }
}

} // verus!
