//! An encrypted credential store: an AES-256-GCM cipher engine with a
//! fixed-width key framing, and a line-oriented file of
//! `username:hex(nonce || ciphertext || tag)` records kept by whole-file
//! read, transform and rewrite.
pub mod hex_text;
pub mod crypto;
pub mod store;
pub mod passgen;
