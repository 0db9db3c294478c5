use vstd::prelude::*;

verus! {

/// The failures the chaining layer and its collaborators report. Every error
/// is returned to the immediate caller as a tagged result; none is retried or
/// suppressed.
#[derive(Clone, Copy, Debug, PartialEq, Eq, Structural)]
pub enum CryptError {
    /// The key or the block size is unsupported by the block cipher; raised at
    /// construction, and no partial object is returned.
    Configuration,
    /// The ciphertext handed to decryption is not a whole number of blocks;
    /// raised before any cryptographic work.
    InvalidSize,
    /// A single-block encryption or decryption failed; the remaining chain is
    /// abandoned.
    Cipher,
    /// The decrypted data does not carry well-formed padding; detectable only
    /// after every block is decrypted.
    Padding,
}

} // verus!
