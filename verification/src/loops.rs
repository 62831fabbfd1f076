pub mod node_action_loop;
pub mod peer_action_loop;
pub mod peer_stream_loop;
