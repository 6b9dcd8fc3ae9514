//! File-level encryption and decryption in the age format, together with the
//! file-state bookkeeping needed to swap a file between plaintext and
//! ciphertext on disk without data loss.
//!
//! The crate is organised as four components:
//! - key material loading: parsing key files into ordered identity and
//!   recipient sets ([`keys`]);
//! - the crypto engine: pure encrypt/decrypt transforms over byte buffers,
//!   including ASCII armor ([`crypt`], [`armor`]);
//! - file-state guards: validated value types asserting that a path exists
//!   and has, or lacks, the ciphertext marker extension ([`guard`]);
//! - the transform orchestrator sequencing guard, key load, crypto and the
//!   derived output path for the two top-level operations ([`orchestrator`]).
//!
//! All path and text handling works on byte strings; the caller converts
//! between platform path types and bytes at the boundary.

pub mod armor;
pub mod command;
pub mod crypt;
pub mod error;
pub mod guard;
pub mod keys;
pub mod orchestrator;
pub mod util;
