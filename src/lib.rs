//! Host side of the binary request/response protocol spoken with the agent
//! process, together with the account and access rules of the web front-end.

pub mod bytes;
pub mod error;
pub mod payload;
pub mod sequence;
pub mod protocol;
pub mod reader;
pub mod identity;
pub mod acl;
pub mod services;
