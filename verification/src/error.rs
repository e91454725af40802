//! The error kinds surfaced by the engine. Implementation-level failures are
//! collapsed into these variants and never leak foreign types.
use vstd::prelude::*;
use vstd::string::StringExecFns;

verus! {

/// Every failure the engine surfaces to a caller.
#[derive(Debug, Clone)]
pub enum Error {
    /// A database name failed validation.
    InvalidDatabaseName(String),
    /// The named database does not exist.
    DatabaseNotFound(String),
    /// A database of that name already exists.
    DatabaseNameAlreadyTaken(String),
    /// The schema named by a request was never registered.
    SchemaNotRegistered(String),
    /// The schema name was registered before.
    SchemaAlreadyRegistered(String),
    /// The persisted schema of a database differs from the requested one.
    SchemaMismatch { database_name: String, schema: String, stored_schema: String },
    /// No user of that name or id exists.
    UserNotFound,
    /// Authentication failed.
    InvalidCredentials,
    /// The session lacks the permission an action requires.
    PermissionDenied,
    /// A configuration-level failure, with a message.
    Configuration(String),
    /// A storage-layer failure surfaced as a message.
    Database(String),
    /// A transport-level failure surfaced as a message.
    Transport(String),
    /// A response arrived whose shape no request expects.
    UnexpectedResponse,
    /// The connection was lost while a request was in flight.
    Disconnected,
    /// A stored page is marked encrypted but encryption is disabled.
    EncryptionDisabled,
}

impl Error {
    /// A short human-readable description of the error kind.
    pub fn message(&self) -> (r: String)
        ensures r@.len() > 0,
    {
        match self {
            Error::InvalidDatabaseName(_) => {
                proof { reveal_strlit("invalid database name"); }
                String::from_str("invalid database name")
            },
            Error::DatabaseNotFound(_) => {
                proof { reveal_strlit("database not found"); }
                String::from_str("database not found")
            },
            Error::DatabaseNameAlreadyTaken(_) => {
                proof { reveal_strlit("database name already taken"); }
                String::from_str("database name already taken")
            },
            Error::SchemaNotRegistered(_) => {
                proof { reveal_strlit("schema not registered"); }
                String::from_str("schema not registered")
            },
            Error::SchemaAlreadyRegistered(_) => {
                proof { reveal_strlit("schema already registered"); }
                String::from_str("schema already registered")
            },
            Error::SchemaMismatch { .. } => {
                proof { reveal_strlit("schema mismatch"); }
                String::from_str("schema mismatch")
            },
            Error::UserNotFound => {
                proof { reveal_strlit("user not found"); }
                String::from_str("user not found")
            },
            Error::InvalidCredentials => {
                proof { reveal_strlit("invalid credentials"); }
                String::from_str("invalid credentials")
            },
            Error::PermissionDenied => {
                proof { reveal_strlit("permission denied"); }
                String::from_str("permission denied")
            },
            Error::Configuration(_) => {
                proof { reveal_strlit("configuration error"); }
                String::from_str("configuration error")
            },
            Error::Database(_) => {
                proof { reveal_strlit("database error"); }
                String::from_str("database error")
            },
            Error::Transport(_) => {
                proof { reveal_strlit("transport error"); }
                String::from_str("transport error")
            },
            Error::UnexpectedResponse => {
                proof { reveal_strlit("unexpected response"); }
                String::from_str("unexpected response")
            },
            Error::Disconnected => {
                proof { reveal_strlit("disconnected"); }
                String::from_str("disconnected")
            },
            Error::EncryptionDisabled => {
                proof { reveal_strlit("encryption disabled"); }
                String::from_str("encryption disabled")
            },
        }
    }
}

} // verus!
