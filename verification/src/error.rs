//! The library's error taxonomy. Every variant carries a human-readable
//! message; callers match on the variant.
use vstd::prelude::*;

verus! {

/// What can go wrong across the PIR service and client pipeline.
#[derive(Debug)]
pub enum PirError {
    /// An operation was requested before the database's first update, or on
    /// inconsistent shapes.
    Database(String),
    /// The text embedder failed.
    Embedding(String),
    /// An HTTP or transport failure on a remote call.
    Network(String),
    /// Packing records into the encoding matrix failed.
    Encoding(String),
    /// A wire value could not be parsed.
    Serialization(String),
    /// Recovered bytes were not valid UTF-8.
    StringConversion(String),
    /// An argument was rejected at the call site.
    InvalidInput(String),
    /// The external record source failed.
    CommandFailed(String),
}

impl PirError {
    /// The message carried by any variant.
    pub fn message(&self) -> (r: &String)
        ensures
            r == match self {
                PirError::Database(s) => s,
                PirError::Embedding(s) => s,
                PirError::Network(s) => s,
                PirError::Encoding(s) => s,
                PirError::Serialization(s) => s,
                PirError::StringConversion(s) => s,
                PirError::InvalidInput(s) => s,
                PirError::CommandFailed(s) => s,
            },
    {
        match self {
            PirError::Database(s) => s,
            PirError::Embedding(s) => s,
            PirError::Network(s) => s,
            PirError::Encoding(s) => s,
            PirError::Serialization(s) => s,
            PirError::StringConversion(s) => s,
            PirError::InvalidInput(s) => s,
            PirError::CommandFailed(s) => s,
        }
    }
}

} // verus!
