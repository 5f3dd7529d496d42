//! Read-only view of a stored provider credential, as the queries use it.
use vstd::prelude::*;

verus! {

/// One stored credential of a provider.
#[derive(Debug)]
pub struct CredentialQuerySnapshot {
    pub id: String,
    pub label: String,
    /// `cookie`, `apiKey`, `token`, ...
    pub kind: String,
    pub secret: String,
    pub region: Option<String>,
}

} // verus!
