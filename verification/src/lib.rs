//! A BER (Basic Encoding Rules) Tag-Length-Value codec for carrying an LDAP
//! wire protocol: a typed, possibly nested value tree is serialized to bytes
//! and reconstructed from bytes read off a connection.

pub mod codec;
pub mod common;
pub mod error;
