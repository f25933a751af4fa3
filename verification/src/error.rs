//! Failures of the authority-bound ingestion path.

use vstd::prelude::*;

use crate::names::NameTableError;

verus! {

/// A failure of the authority-bound ingestion path.
#[derive(Clone, Debug, PartialEq, Eq)]
pub enum AuthorityIngestError {
    /// A name did not resolve.
    Names(NameTableError),
    /// The authority bound no identity for this declared key.
    UnboundDeclaration(Vec<u8>),
    /// The authority assigned this identity, outside the u16 local space.
    AssignedIdentityOutOfRange(u32),
    /// No local identity was left for a builtin scalar prior.
    BuiltinIdentitySpaceExhausted,
}

pub enum IngestErrorModel {
    Names(NameTableError),
    UnboundDeclaration(Seq<u8>),
    AssignedIdentityOutOfRange(u32),
    BuiltinIdentitySpaceExhausted,
}

impl View for AuthorityIngestError {
    type V = IngestErrorModel;

    open spec fn view(&self) -> IngestErrorModel {
        match self {
            AuthorityIngestError::Names(e) => IngestErrorModel::Names(*e),
            AuthorityIngestError::UnboundDeclaration(k) => IngestErrorModel::UnboundDeclaration(k@),
            AuthorityIngestError::AssignedIdentityOutOfRange(i) => {
                IngestErrorModel::AssignedIdentityOutOfRange(*i)
            },
            AuthorityIngestError::BuiltinIdentitySpaceExhausted => {
                IngestErrorModel::BuiltinIdentitySpaceExhausted
            },
        }
    }
}

} // verus!
