pub mod pending_blocks_loop;
