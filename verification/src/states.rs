pub mod blocks_state;
pub mod headers_state;
pub mod pending_blocks_state;
pub mod pending_txs_state;
pub mod utxo_state;
pub mod wallets_state;
