//! A verified library for the Password Safe v3 container format: an
//! encrypted, authenticated blob holding a key schedule, an authentication
//! tag and a stream of type-tagged records.
//!
//! `crypto` wraps the symmetric primitives, `item` is the record codec and
//! `keychain` drives the on-disk envelope.
use vstd::prelude::*;

pub mod crypto;
pub mod item;
pub mod keychain;
pub mod matcher;

verus! {

/// Everything that can go wrong while opening, saving or editing a database.
#[derive(Debug, Clone, Copy, PartialEq, Eq, Structural)]
pub enum PwsError {
    /// Bad magic tag, truncated header, missing end marker, or a field that
    /// cannot be rendered to bytes.
    Format,
    /// The stretched-password hash does not match the stored one; the caller
    /// cannot tell a wrong password from a corrupted header, by design.
    WrongPassword,
    /// The authentication tag did not match after a structurally valid parse.
    Authentication,
    /// A cipher was handed a key, IV or buffer of the wrong shape.
    Crypto,
    /// A field ended mid-record while parsing.
    CorruptRecord,
    /// A pattern that the matcher could not compile.
    BadPattern,
}

} // verus!

