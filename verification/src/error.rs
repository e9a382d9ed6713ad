//! The ways in which showing a secret or a directory can fail.

use vstd::prelude::*;

verus! {

/// Why a request could not be served.
#[derive(Debug, Clone, PartialEq, Eq)]
pub enum ShowError {
    /// Neither a secret nor a directory of that name is in the store.
    NotFound { name: String },
    /// The secret could not be decrypted.
    DecryptionFailed,
    /// An entry of the store has no base name, or its name is not text.
    InvalidEntryName,
    /// The clipboard relay could not be started or takes no input.
    ClipboardRelayUnavailable,
    /// The decrypted secret has no first line.
    EmptySecretContent,
    /// The tree is nested deeper than it can be drawn.
    TreeTooDeep,
    /// The drawing of the tree could not be written out.
    OutputFailed,
}

} // verus!
