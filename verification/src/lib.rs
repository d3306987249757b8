//! Verified core of a small Vigenere encryption relay.
//!
//! A client sends a plaintext message and a symmetric key to a server over a
//! stream socket; the server applies the Vigenere cipher and returns the
//! ciphertext; the client reverses the cipher locally.  This crate holds the
//! parts with actual design decisions, each with a proved contract: the
//! cipher transform itself ([`cipher`]), the wire encoding of the
//! request envelope ([`envelope`]), socket address-family selection
//! ([`addr`]), and the per-connection request handler ([`protocol`]).
//! Socket I/O and process concerns live outside the library.

pub mod addr;
pub mod cipher;
pub mod envelope;
pub mod protocol;
