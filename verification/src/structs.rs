pub mod block_header;
pub mod inventory;
pub mod outpoint;
pub mod tx_output;
