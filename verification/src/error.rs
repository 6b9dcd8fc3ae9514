use vstd::prelude::*;

verus! {

/// The failure taxonomy shared by every component of the crate.
///
/// Path resolution reports `NotFound`, `NotAFile` and `CanonicalizeFailed`;
/// key loading reports `EmptyKeySet` and `ParseFailure`; the crypto engine
/// reports `EncryptFailure`, `DecryptFailure` and `NoMatchingIdentity`; the
/// file-state guards report `WrongExtension` and `AlreadyExists`. No error is
/// ever silently swallowed: each operation halts at its first failure.
#[derive(Clone, Copy, Debug, PartialEq, Eq, Structural)]
pub enum AgeError {
    /// A path did not name an existing filesystem entry.
    NotFound,
    /// A path named something other than a regular file, or had no file name.
    NotAFile,
    /// A path could not be resolved to a canonical form.
    CanonicalizeFailed,
    /// Key loading produced no identity or recipient at all.
    EmptyKeySet,
    /// A line that looked like key material failed to parse or validate as a
    /// usable key.
    ParseFailure,
    /// The encryption engine rejected the request.
    EncryptFailure,
    /// The ciphertext was structurally invalid or failed authentication.
    DecryptFailure,
    /// No supplied identity could unwrap the file key of the ciphertext.
    NoMatchingIdentity,
    /// A guarded path had the wrong extension for the requested guard.
    WrongExtension,
    /// A target file already existed where none was allowed.
    AlreadyExists,
}

} // verus!
