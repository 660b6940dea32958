use vstd::prelude::*;

verus! {

/// Failure taxonomy of the SSH access-control core.
///
/// `DatabaseError` is a persistence failure, surfaced as-is so the
/// caller can decide what to do.  `SshError` covers handshake,
/// network, trust and authentication failures.  `ExecutionError`
/// means a remote command ran but exited non-zero, or the transport
/// broke mid-execution.  `NoSuchHost` means the host is not in the
/// store.
#[derive(Debug, Clone)]
pub enum SshClientError {
    DatabaseError(String),
    SshError(String),
    ExecutionError(String),
    NoSuchHost,
}

/// The message text `message` returns for each variant.
pub open spec fn spec_message(e: SshClientError) -> Seq<char> {
    match e {
        SshClientError::DatabaseError(t) => t@,
        SshClientError::SshError(t) => t@,
        SshClientError::ExecutionError(t) => t@,
        SshClientError::NoSuchHost => "The host doesn't exist in the database."@,
    }
}

impl SshClientError {
    /// Human-readable description of the failure.
    pub fn message(&self) -> (r: String)
        ensures
            r@ == spec_message(*self),
    {
        match self {
            SshClientError::DatabaseError(t) => t.clone(),
            SshClientError::SshError(t) => t.clone(),
            SshClientError::ExecutionError(t) => t.clone(),
            SshClientError::NoSuchHost => "The host doesn't exist in the database.".to_owned(),
        }
    }
}

} // verus!
