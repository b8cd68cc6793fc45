//! Chunked, authenticated streaming encryption: a plaintext byte stream is cut
//! into fixed-size chunks, each sealed under its own derived nonce, and the
//! resulting frames are opened again one by one on the way back.
pub mod aead;
pub mod decryptor;
pub mod encryptor;
pub mod error;
pub mod frames;
pub mod nonce;
