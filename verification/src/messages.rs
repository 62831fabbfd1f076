pub mod block;
pub mod get_headers;
pub mod headers;
pub mod inv;
pub mod ping_pong;
pub mod transaction;
pub mod version;
