use vstd::prelude::*;
use crate::loops::node_action_loop::{fetch_requests, fetches, request_count, NodeEffect};
use crate::node_state::NodeState;
use crate::states::pending_blocks_state::{restamped, stale_hashes};

verus! {

/// One round of the watch over the requests for blocks, at time `now`.
/// Once the store has every block nothing is left to watch, and the answer
/// is nothing. Else the blocks whose requests are stale are asked for
/// again, five to a request, and their requests get the time `now`.
pub fn pending_blocks_loop(state: &mut NodeState, now: i64) -> (round: Option<Vec<NodeEffect>>)
    ensures
        old(state).blocks.synced() ==> round is None && *final(state) == *old(state),
        !old(state).blocks.synced() ==> round is Some && fetches(
            round->Some_0@,
            stale_hashes(old(state).pending_blocks@, now),
        ) && round->Some_0@.len() == request_count(
            stale_hashes(old(state).pending_blocks@, now).len(),
        ) && final(state).pending_blocks@ == restamped(old(state).pending_blocks@, now),
        final(state).headers == old(state).headers,
        final(state).peers == old(state).peers,
        final(state).wallets == old(state).wallets,
        final(state).blocks == old(state).blocks,
        final(state).utxo == old(state).utxo,
        final(state).pending_txs == old(state).pending_txs,
{
    if state.blocks.is_synced() {
        return None;
    }
    let blocks_to_refetch = state.pending_blocks.get_stale_requests_at(now);
    Some(fetch_requests(&blocks_to_refetch))
}

} // verus!
