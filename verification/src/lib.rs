//! A minimal session-credential core: it digests passwords one way, mints
//! opaque bearer tokens, keeps identity records in a store with unique
//! usernames, and answers login and token-validation requests. The backing
//! medium is handed in and out as encoded record lines; reading and writing
//! the medium itself is the caller's business.

pub mod auth;
pub mod codec;
pub mod hashing;
pub mod laws;
pub mod store;
