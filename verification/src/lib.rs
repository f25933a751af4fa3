//! Authority-bound ingestion of parsed Ethos declarations: the bind-or-mint declaration
//! set that is presented to the identity authority, and the canonical universe assignment
//! built from the authority's reply.
//!
//! - `names`: the interning name table declarations are parsed against.
//! - `declaration`: stringless encoded declarations and their models.
//! - `shape`: the structural fingerprint input of a declaration, and its key.
//! - `fingerprint`: reading a fingerprint back; equal fingerprints, equal structure.
//! - `identity`: declared identities and the authority's assignments.
//! - `restamp`: rewriting a declaration against another name table, and declared content.
//! - `resolution`: declarations whose names all resolve, and what that guarantees.
//! - `sort`: the stable sort by local.
//! - `universe`: the canonical universe assignment.
//! - `error`: failures of the path.
//! - `ingest`: one parsed unit, and the path from it.
//! - `laws`: what holds of the path as a whole.

pub mod declaration;
pub mod error;
pub mod fingerprint;
pub mod identity;
pub mod ingest;
pub mod laws;
pub mod names;
pub mod resolution;
pub mod restamp;
pub mod shape;
pub mod sort;
pub mod universe;
