//! Anonymous pairing of users into two-party relay sessions.
//!
//! [`store`] holds the waiting queue and the pair table together with the
//! join and leave protocols; [`cipher`] encodes and decodes relayed text under
//! a pair's key; [`relay`] forwards a text message to the sender's partner.
pub mod cipher;
pub mod relay;
pub mod store;
