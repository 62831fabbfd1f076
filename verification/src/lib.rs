pub mod accounting;
pub mod config;
pub mod encoding;
pub mod error;
pub mod hashing;
pub mod loops;
pub mod message;
pub mod messages;
pub mod node_state;
pub mod parser;
pub mod peer;
pub mod selection;
pub mod states;
pub mod structs;
pub mod threads;
pub mod wallet;
