//! Splitting a BIP39 mnemonic seed phrase into threshold shards and
//! recovering it: a verified mnemonic codec over the fixed 2048-word
//! English list, and a verified Shamir secret-sharing engine over
//! GF(256). Words and tokens are handled as byte strings; reading
//! and printing text stays with the caller.

pub mod api;
pub mod bits;
pub mod codec;
pub mod error;
pub mod gf256;
pub mod shamir;
pub mod shard;
pub mod wordlist;
