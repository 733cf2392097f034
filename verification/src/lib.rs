//! A compound-candidate backend for SKK input methods: SKK dictionary
//! parsing, a two-tier (user / system) dictionary index, best-first compound
//! generation and the skkserv request/response protocol, all with contracts.

pub mod text;
pub mod codec;
pub mod dictionary;
pub mod parser;
pub mod snapshot;
pub mod loader;
pub mod generator;
pub mod store;
pub mod server;
pub mod reindex;
