//! Helpers for authentication: the claims of a token, and password hashes.

pub mod jwt;
pub mod password;
