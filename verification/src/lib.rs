//! Cipher block chaining (CBC) over a pluggable fixed-block-size cipher and a
//! pluggable padding scheme.
//!
//! The chaining layer in [`cbc`] links successive blocks through an
//! initialization vector and exclusive-or feedback. The block cipher and the
//! padding scheme are collaborators reached through the traits in [`cipher`]
//! and [`padding`]; the laws the chain satisfies are stated and proved in
//! [`laws`].

pub mod cbc;
pub mod cipher;
pub mod errors;
pub mod laws;
pub mod padding;
pub mod xor;
pub mod xor_cipher;
