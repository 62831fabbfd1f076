use vstd::prelude::*;
use crate::error::CustomError;
use crate::hashing::copy_bytes;
use crate::loops::peer_action_loop::{optional_hash_view, PeerAction};
use crate::messages::block::{Block, BlockView};
use crate::messages::get_headers::{GetHeaders, GetHeadersView};
use crate::messages::headers::Headers;
use crate::messages::inv::inventories_view;
use crate::messages::transaction::{payments_view, Transaction, TransactionView};
use crate::node_state::{
    assemble, assembly_result, block_taken, peer_position, Assembly, BlockOutcome, GUIEvents,
    NodeState,
};
use crate::parser::NetAddress;
use crate::peer::Peer;
use crate::states::blocks_state::BlockFile;
use crate::states::headers_state::{
    extend, headers_view, ready_range, rejects, reply_headers, with_pushed,
    MAX_HEADERS_PER_REPLY, START_DATE_IBD,
};
use crate::states::pending_blocks_state::{hashes_view, is_pending, with_request};
use crate::states::pending_txs_state::{pool_contains, pool_with};
use crate::structs::block_header::{BlockHeader, BlockHeaderView};
use crate::structs::inventory::{Inventory, InventoryType, InventoryView};

verus! {

/// The most inventories that one request for data carries.
pub const BLOCKS_PER_REQUEST: usize = 5;

/// What the node is told: by the receiving sides of its peers, by their
/// sending sides, and by the user.
#[derive(Debug, Clone)]
pub enum NodeAction {
    /// A block has come, with its hash.
    Block(Vec<u8>, Block),
    /// Headers have come.
    NewHeaders(Headers),
    /// A request for headers could not be sent.
    GetHeadersError,
    /// A request for data could not be sent.
    GetDataError(Vec<Inventory>),
    /// The user wants to pay these keys these amounts, with this fee.
    MakeTransaction(Vec<(String, u64)>, u64),
    /// A transaction that no block has confirmed has come.
    PendingTransaction(Transaction),
    /// The peer at this address wants headers pushed to it.
    SendHeaders(NetAddress),
    /// The peer at this address asks for headers.
    SendHeadersRequested(NetAddress, GetHeaders),
    /// The connection to the peer at this address has failed.
    PeerError(NetAddress),
}

/// What is to be done outside once the node has taken an action.
#[derive(Debug, Clone)]
pub enum NodeEffect {
    /// Hand this action to the sending side of a peer, whichever is free.
    Request(PeerAction),
    /// Send this transaction to every peer.
    Broadcast(Transaction),
    /// Send these headers to the peer at this address.
    Reply(NetAddress, Headers),
    /// Tell the user interface.
    Notify(GUIEvents),
    /// Write this file of the block store.
    StoreBlock(BlockFile),
    /// Read all the stored blocks, in the order of their headers, and have
    /// the node build the unspent outputs from them.
    BuildUtxo,
    /// Log this error.
    Report(CustomError),
}

/// The hashes of the headers whose block is to be downloaded: those made
/// after the start date, in their order.
pub open spec fn wanted_blocks(headers: Seq<BlockHeaderView>) -> Seq<Seq<u8>>
    decreases headers.len(),
{
    if headers.len() == 0 {
        Seq::empty()
    } else if headers.last().timestamp > START_DATE_IBD {
        wanted_blocks(headers.drop_last()).push(headers.last().hash)
    } else {
        wanted_blocks(headers.drop_last())
    }
}

/// The requests after each of `hashes` is asked for at time `now`.
pub open spec fn request_all(requests: Seq<(Seq<u8>, i64)>, hashes: Seq<Seq<u8>>, now: i64) -> Seq<
    (Seq<u8>, i64),
>
    decreases hashes.len(),
{
    if hashes.len() == 0 {
        requests
    } else {
        with_request(request_all(requests, hashes.drop_last(), now), hashes.last(), now)
    }
}

/// The number of requests for data that `count` blocks take: five blocks
/// to a request.
pub open spec fn request_count(count: nat) -> nat {
    (count + BLOCKS_PER_REQUEST - 1) as nat / BLOCKS_PER_REQUEST as nat
}

/// The hashes that request `k` asks for: the `k`-th five of `hashes`, or
/// what is left of them.
pub open spec fn request_hashes(hashes: Seq<Seq<u8>>, k: int) -> Seq<Seq<u8>> {
    hashes.subrange(
        BLOCKS_PER_REQUEST * k,
        if BLOCKS_PER_REQUEST * (k + 1) < hashes.len() {
            BLOCKS_PER_REQUEST * (k + 1)
        } else {
            hashes.len() as int
        },
    )
}

/// The inventories that ask for the blocks with these hashes.
pub open spec fn block_inventories(hashes: Seq<Seq<u8>>) -> Seq<InventoryView> {
    hashes.map_values(
        |hash: Seq<u8>| InventoryView { inventory_type: InventoryType::Block, hash },
    )
}

/// Whether `effects` start with the requests for data that fetch the
/// blocks with `hashes`, five blocks to a request, in their order.
pub open spec fn fetches(effects: Seq<NodeEffect>, hashes: Seq<Seq<u8>>) -> bool {
    &&& effects.len() >= request_count(hashes.len())
    &&& forall|k: int|
        0 <= k < request_count(hashes.len()) ==> (#[trigger] effects[k] matches NodeEffect::Request(
            PeerAction::GetData(inventories),
        ) && inventories_view(inventories@) == block_inventories(request_hashes(hashes, k)))
}

/// The requests for data that fetch the blocks with `hashes`, five blocks
/// to a request.
pub fn fetch_requests(hashes: &Vec<Vec<u8>>) -> (effects: Vec<NodeEffect>)
    ensures
        effects@.len() == request_count(hashes@.len()),
        fetches(effects@, hashes_view(hashes@)),
{
    let ghost all = hashes_view(hashes@);
    let mut effects: Vec<NodeEffect> = Vec::new();
    let mut start: usize = 0;
    while start < hashes.len()
        invariant
            start <= hashes@.len(),
            all == hashes_view(hashes@),
            start % BLOCKS_PER_REQUEST == 0 || start == hashes@.len(),
            effects@.len() == request_count(start as nat),
            forall|k: int|
                0 <= k < effects@.len() ==> (#[trigger] effects@[k] matches NodeEffect::Request(
                    PeerAction::GetData(inventories),
                ) && inventories_view(inventories@) == block_inventories(request_hashes(all, k))),
        decreases hashes@.len() - start,
    {
        let end = if hashes.len() - start > BLOCKS_PER_REQUEST {
            start + BLOCKS_PER_REQUEST
        } else {
            hashes.len()
        };
        let ghost k = effects@.len() as int;
        assert(BLOCKS_PER_REQUEST * k == start);
        let mut inventories: Vec<Inventory> = Vec::new();
        let mut i: usize = start;
        assert(inventories_view(inventories@) =~= block_inventories(
            all.subrange(start as int, start as int),
        ));
        while i < end
            invariant
                start <= i <= end <= hashes@.len(),
                all == hashes_view(hashes@),
                inventories_view(inventories@) == block_inventories(
                    all.subrange(start as int, i as int),
                ),
            decreases end - i,
        {
            let inventory = Inventory::new(InventoryType::Block, copy_bytes(&hashes[i]));
            proof {
                assert(inventories_view(inventories@.push(inventory)) =~= inventories_view(
                    inventories@,
                ).push(inventory@));
                assert(block_inventories(all.subrange(start as int, i + 1)) =~= block_inventories(
                    all.subrange(start as int, i as int),
                ).push(InventoryView { inventory_type: InventoryType::Block, hash: all[i as int] }));
            }
            inventories.push(inventory);
            i = i + 1;
        }
        let ghost earlier = effects@;
        effects.push(NodeEffect::Request(PeerAction::GetData(inventories)));
        proof {
            assert forall|j: int| 0 <= j < effects@.len() implies (#[trigger] effects@[j] matches NodeEffect::Request(
                PeerAction::GetData(inventories),
            ) && inventories_view(inventories@) == block_inventories(request_hashes(all, j))) by {
                if j < k {
                    assert(effects@[j] == earlier[j]);
                }
            }
        }
        start = end;
    }
    effects
}

/// The hashes of the headers whose block is to be downloaded.
pub fn blocks_to_fetch(headers: &Vec<BlockHeader>) -> (hashes: Vec<Vec<u8>>)
    ensures
        hashes_view(hashes@) == wanted_blocks(headers_view(headers@)),
{
    let ghost all = headers_view(headers@);
    let mut hashes: Vec<Vec<u8>> = Vec::new();
    let mut i: usize = 0;
    assert(hashes_view(hashes@) =~= Seq::empty());
    while i < headers.len()
        invariant
            i <= headers@.len(),
            all == headers_view(headers@),
            hashes_view(hashes@) == wanted_blocks(all.take(i as int)),
        decreases headers@.len() - i,
    {
        proof {
            let next = all.take(i + 1);
            assert(next.drop_last() =~= all.take(i as int));
            assert(next.last() == headers@[i as int]@);
        }
        if headers[i].timestamp > START_DATE_IBD {
            let hash = copy_bytes(&headers[i].hash);
            proof {
                assert(hashes_view(hashes@.push(hash)) =~= hashes_view(hashes@).push(hash@));
            }
            hashes.push(hash);
        }
        i = i + 1;
    }
    assert(all.take(i as int) =~= all);
    hashes
}

/// Whether `after` and `effects` are what headers that have come at time
/// `now` make of the state `before`. The blocks of the headers made after
/// the start date are asked for, five to a request, and noted as pending.
/// Then all the headers are offered to the chain; the user interface is
/// told of new headers, or the error of the chain is logged.
pub open spec fn new_headers_handled(
    before: NodeState,
    headers: Seq<BlockHeaderView>,
    now: i64,
    after: NodeState,
    effects: Seq<NodeEffect>,
) -> bool {
    &&& after.pending_blocks@ == request_all(before.pending_blocks@, wanted_blocks(headers), now)
    &&& after.headers@ == extend(
        before.headers@,
        before.headers.anchor(),
        before.offered(headers),
    )
    &&& after.headers.anchor() == before.headers.anchor()
    &&& after.headers.synced() == (headers.len() < MAX_HEADERS_PER_REPLY)
    &&& fetches(effects, wanted_blocks(headers))
    &&& effects.len() == request_count(wanted_blocks(headers).len()) + 1
    &&& if rejects(before.headers@, before.headers.anchor(), before.offered(headers)) {
        effects.last() == NodeEffect::Report(CustomError::HeaderNotLinked)
    } else {
        effects.last() == NodeEffect::Notify(GUIEvents::NewHeaders)
    }
    &&& after.peers == before.peers
    &&& after.wallets == before.wallets
    &&& after.blocks == before.blocks
    &&& after.utxo == before.utxo
    &&& after.pending_txs == before.pending_txs
}

/// Takes headers that have come, at time `now`.
pub fn handle_new_headers(state: &mut NodeState, new_headers: Headers, now: i64) -> (effects: Vec<
    NodeEffect,
>)
    ensures
        new_headers_handled(*old(state), new_headers@, now, *final(state), effects@),
{
    let hashes = blocks_to_fetch(&new_headers.headers);
    let ghost wanted = hashes_view(hashes@);
    let ghost start = state.pending_blocks@;
    let mut i: usize = 0;
    while i < hashes.len()
        invariant
            i <= hashes@.len(),
            wanted == hashes_view(hashes@),
            state.pending_blocks@ == request_all(start, wanted.take(i as int), now),
            state.headers == old(state).headers,
            state.peers == old(state).peers,
            state.wallets == old(state).wallets,
            state.blocks == old(state).blocks,
            state.utxo == old(state).utxo,
            state.pending_txs == old(state).pending_txs,
        decreases hashes@.len() - i,
    {
        proof {
            let next = wanted.take(i + 1);
            assert(next.drop_last() =~= wanted.take(i as int));
            assert(next.last() == hashes@[i as int]@);
        }
        state.pending_blocks.append_block_at(copy_bytes(&hashes[i]), now);
        i = i + 1;
    }
    assert(wanted.take(i as int) =~= wanted);
    let mut effects = fetch_requests(&hashes);
    let ghost requests = effects@;
    let last = match state.append_headers(&new_headers) {
        Ok(event) => NodeEffect::Notify(event),
        Err(e) => NodeEffect::Report(e),
    };
    effects.push(last);
    proof {
        assert forall|k: int|
            0 <= k < request_count(wanted.len()) implies (#[trigger] effects@[k] matches NodeEffect::Request(
            PeerAction::GetData(inventories),
        ) && inventories_view(inventories@) == block_inventories(request_hashes(wanted, k))) by {
            assert(effects@[k] == requests[k]);
        }
    }
    effects
}

/// What is to be done outside once the node has taken a block with this
/// outcome, in this order: the file is written; the user interface is told
/// that the node is ready, when it is; the error of the wallets is logged,
/// when there is one; the user interface is told that wallets changed,
/// when they did; the unspent outputs are built, when they are due.
pub open spec fn block_effects(outcome: BlockOutcome) -> Seq<NodeEffect> {
    seq![NodeEffect::StoreBlock(outcome.file)] + (if outcome.ready {
        seq![NodeEffect::Notify(GUIEvents::NodeStateReady)]
    } else {
        Seq::empty()
    }) + (match outcome.failure {
        Some(e) => seq![NodeEffect::Report(e)],
        None => Seq::empty(),
    }) + (if outcome.wallets_updated {
        seq![NodeEffect::Notify(GUIEvents::WalletsUpdated)]
    } else {
        Seq::empty()
    }) + (if outcome.build_utxo {
        seq![NodeEffect::BuildUtxo]
    } else {
        Seq::empty()
    })
}

/// What is to be done outside for the outcome of a block.
pub fn effects_of_block(outcome: BlockOutcome) -> (effects: Vec<NodeEffect>)
    ensures
        effects@ == block_effects(outcome),
{
    let mut effects: Vec<NodeEffect> = Vec::new();
    effects.push(NodeEffect::StoreBlock(outcome.file));
    if outcome.ready {
        effects.push(NodeEffect::Notify(GUIEvents::NodeStateReady));
    }
    match outcome.failure {
        Some(e) => {
            effects.push(NodeEffect::Report(e));
        },
        None => {},
    }
    if outcome.wallets_updated {
        effects.push(NodeEffect::Notify(GUIEvents::WalletsUpdated));
    }
    if outcome.build_utxo {
        effects.push(NodeEffect::BuildUtxo);
    }
    assert(effects@ =~= block_effects(outcome));
    effects
}

/// The addresses of the peers that want headers pushed to them, in the
/// order of the peers.
pub open spec fn wanting_headers(peers: Seq<Peer>) -> Seq<NetAddress>
    decreases peers.len(),
{
    if peers.len() == 0 {
        Seq::empty()
    } else if peers.last().send_headers {
        wanting_headers(peers.drop_last()).push(peers.last().address)
    } else {
        wanting_headers(peers.drop_last())
    }
}

/// Whether `effects` push `headers` to the peers that want headers pushed
/// to them: one answer with the headers for each such peer, in the order
/// of the peers; nothing when there is no header to push.
pub open spec fn pushes(effects: Seq<NodeEffect>, peers: Seq<Peer>, headers: Seq<BlockHeaderView>) -> bool {
    if headers.len() == 0 {
        effects.len() == 0
    } else {
        &&& effects.len() == wanting_headers(peers).len()
        &&& forall|k: int|
            0 <= k < effects.len() ==> (#[trigger] effects[k] matches NodeEffect::Reply(to, pushed)
                && to == wanting_headers(peers)[k] && pushed@ == headers)
    }
}

/// The effects that push `headers` to the peers that want headers pushed
/// to them.
pub fn push_effects(peers: &Vec<Peer>, headers: &Vec<BlockHeader>) -> (effects: Vec<NodeEffect>)
    ensures
        pushes(effects@, peers@, headers_view(headers@)),
{
    let mut effects: Vec<NodeEffect> = Vec::new();
    if headers.len() == 0 {
        return effects;
    }
    let ghost wanted = headers_view(headers@);
    let mut i: usize = 0;
    while i < peers.len()
        invariant
            i <= peers@.len(),
            wanted == headers_view(headers@),
            effects@.len() == wanting_headers(peers@.take(i as int)).len(),
            forall|k: int|
                0 <= k < effects@.len() ==> (#[trigger] effects@[k] matches NodeEffect::Reply(
                    to,
                    pushed,
                ) && to == wanting_headers(peers@.take(i as int))[k] && pushed@ == wanted),
        decreases peers@.len() - i,
    {
        proof {
            let next = peers@.take(i + 1);
            assert(next.drop_last() =~= peers@.take(i as int));
            assert(next.last() == peers@[i as int]);
        }
        if peers[i].send_headers {
            let mut copy: Vec<BlockHeader> = Vec::new();
            let mut k: usize = 0;
            while k < headers.len()
                invariant
                    k <= headers@.len(),
                    copy@.len() == k,
                    forall|j: int| 0 <= j < k ==> (#[trigger] copy@[j])@ == headers@[j]@,
                decreases headers@.len() - k,
            {
                copy.push(headers[k].duplicate());
                k = k + 1;
            }
            assert(headers_view(copy@) =~= wanted);
            let ghost earlier = effects@;
            effects.push(NodeEffect::Reply(peers[i].address, Headers::new(copy)));
            proof {
                assert forall|k: int| 0 <= k < effects@.len() implies (#[trigger] effects@[k] matches NodeEffect::Reply(
                    to,
                    pushed,
                ) && to == wanting_headers(peers@.take(i + 1))[k] && pushed@ == wanted) by {
                    if k < earlier.len() {
                        assert(effects@[k] == earlier[k]);
                    }
                }
            }
        }
        i = i + 1;
    }
    assert(peers@.take(i as int) =~= peers@);
    effects
}

/// Whether `after` and `effects` are what pushing the headers that are
/// ready, now that the block with hash `block_hash` is stored, makes of the
/// state `taken`: the headers are noted as pushed, and they are pushed to
/// the peers that want headers pushed.
pub open spec fn headers_pushed(
    taken: NodeState,
    block_hash: Seq<u8>,
    after: NodeState,
    effects: Seq<NodeEffect>,
) -> bool {
    let range = ready_range(taken.headers@, block_hash);
    &&& after.headers@ == with_pushed(taken.headers@, range.0, range.1)
    &&& after.headers.anchor() == taken.headers.anchor()
    &&& after.headers.synced() == taken.headers.synced()
    &&& after.peers == taken.peers
    &&& after.wallets == taken.wallets
    &&& after.blocks == taken.blocks
    &&& after.pending_blocks == taken.pending_blocks
    &&& after.utxo == taken.utxo
    &&& after.pending_txs == taken.pending_txs
    &&& pushes(effects, taken.peers@, taken.headers@.subrange(range.0, range.1))
}

/// Whether `after` and `effects` are what a block that has come for the
/// hash `block_hash` makes of the state `before`. A block that is not
/// pending is dropped: nothing changes and nothing is to be done. A block
/// that is pending is taken, which gives the state `taken` and an outcome.
/// Then the headers that are ready now that the block is stored are noted
/// as pushed. What is to be done outside follows from the outcome, and
/// then the headers are pushed to the peers that want headers pushed.
pub open spec fn block_handled(
    before: NodeState,
    block_hash: Seq<u8>,
    block: BlockView,
    after: NodeState,
    effects: Seq<NodeEffect>,
) -> bool {
    if is_pending(before.pending_blocks@, block_hash) {
        exists|outcome: BlockOutcome, taken: NodeState, tail: Seq<NodeEffect>|
            {
                &&& #[trigger] block_taken(before, block_hash, block, taken, outcome)
                &&& #[trigger] headers_pushed(taken, block_hash, after, tail)
                &&& effects == block_effects(outcome) + tail
            }
    } else {
        effects.len() == 0 && after == before
    }
}

/// Takes a block that has come for the hash `block_hash`.
pub fn handle_block(state: &mut NodeState, block_hash: Vec<u8>, block: Block) -> (effects: Vec<
    NodeEffect,
>)
    ensures
        block_handled(*old(state), block_hash@, block@, *final(state), effects@),
{
    if !state.is_block_pending(&block_hash) {
        return Vec::new();
    }
    let stored = copy_bytes(&block_hash);
    let outcome = state.append_block(block_hash, &block);
    let ghost taken = *state;
    let ready = state.get_headers_to_send(&stored);
    let mut tail = push_effects(&state.peers, &ready);
    let ghost pushed = tail@;
    let mut effects = effects_of_block(outcome);
    effects.append(&mut tail);
    proof {
        assert(block_taken(*old(state), stored@, block@, taken, outcome));
        assert(headers_pushed(taken, stored@, *state, pushed));
    }
    effects
}

/// Whether `effects` are what a request for headers that could not be
/// sent asks for: the request is made again, for whatever peer is free,
/// from the tip that the chain has now.
pub open spec fn get_headers_error_handled(state: NodeState, effects: Seq<NodeEffect>) -> bool {
    &&& effects.len() == 1
    &&& effects[0] matches NodeEffect::Request(PeerAction::GetHeaders(last))
    &&& optional_hash_view(last) == if state.headers@.len() == 0 {
        None
    } else {
        Some(state.headers@.last().hash)
    }
}

/// A request for headers could not be sent.
pub fn handle_get_headers_error(state: &NodeState) -> (effects: Vec<NodeEffect>)
    ensures
        get_headers_error_handled(*state, effects@),
{
    let last_header = state.get_last_header_hash();
    let mut effects: Vec<NodeEffect> = Vec::new();
    effects.push(NodeEffect::Request(PeerAction::GetHeaders(last_header)));
    effects
}

/// A request for data could not be sent: the same request is made again,
/// for whatever peer is free.
pub fn handle_get_data_error(inventory: Vec<Inventory>) -> (effects: Vec<NodeEffect>)
    ensures
        effects@ == seq![NodeEffect::Request(PeerAction::GetData(inventory))],
{
    let mut effects: Vec<NodeEffect> = Vec::new();
    effects.push(NodeEffect::Request(PeerAction::GetData(inventory)));
    assert(effects@ =~= seq![NodeEffect::Request(PeerAction::GetData(inventory))]);
    effects
}

/// Whether `after` and `effects` are what the wish of the user to pay
/// `payments` with the fee `fee` makes of the state `before`. When the
/// transaction cannot be made, the error is logged and nothing changes.
/// Else the transaction is sent to every peer and enters the pool of
/// pending transactions, and the user interface is told that it entered,
/// when it did, and that it was sent.
pub open spec fn make_transaction_handled(
    before: NodeState,
    payments: Seq<(Seq<char>, u64)>,
    fee: u64,
    after: NodeState,
    effects: Seq<NodeEffect>,
) -> bool {
    &&& match (match before.wallets.active() {
        None => Assembly::NoWallet,
        Some(i) => assemble(before.wallets@[i].pubkey, before.utxo@, payments, fee),
    }) {
        Assembly::Made(transaction) => {
            &&& after.pending_txs@ == pool_with(
                before.pending_txs@,
                transaction.hash(),
                transaction,
            )
            &&& effects.len() == if pool_contains(before.pending_txs@, transaction.hash()) {
                2nat
            } else {
                3nat
            }
            &&& effects[0] matches NodeEffect::Broadcast(sent) && sent@ == transaction
            &&& effects.len() == 3 ==> effects[1] == NodeEffect::Notify(GUIEvents::NewPendingTx)
            &&& effects.last() == NodeEffect::Notify(GUIEvents::TransactionSent)
        },
        failure => {
            &&& after.pending_txs@ == before.pending_txs@
            &&& effects.len() == 1
            &&& effects[0] matches NodeEffect::Report(e) && assembly_result(
                failure,
                Err::<Transaction, CustomError>(e),
            )
        },
    }
    &&& after.headers == before.headers
    &&& after.peers == before.peers
    &&& after.wallets == before.wallets
    &&& after.blocks == before.blocks
    &&& after.pending_blocks == before.pending_blocks
    &&& after.utxo == before.utxo
}

/// The user wants to pay `outputs` with the fee `fee`.
pub fn handle_make_transaction(state: &mut NodeState, outputs: Vec<(String, u64)>, fee: u64) -> (effects:
    Vec<NodeEffect>)
    ensures
        make_transaction_handled(*old(state), payments_view(outputs@), fee, *final(state), effects@),
{
    let mut effects: Vec<NodeEffect> = Vec::new();
    let transaction = match state.make_transaction(outputs, fee) {
        Ok(transaction) => transaction,
        Err(error) => {
            effects.push(NodeEffect::Report(error));
            return effects;
        },
    };
    effects.push(NodeEffect::Broadcast(transaction.duplicate()));
    match state.append_pending_tx(transaction) {
        Some(event) => {
            effects.push(NodeEffect::Notify(event));
        },
        None => {},
    }
    effects.push(NodeEffect::Notify(GUIEvents::TransactionSent));
    effects
}

/// Whether `after` and `effects` are what a transaction that no block has
/// confirmed makes of the state `before`. It is dropped unless the node is
/// up to date; else it enters the pool of pending transactions, unless it
/// is there already, and the user interface is told when it entered.
pub open spec fn pending_transaction_handled(
    before: NodeState,
    transaction: TransactionView,
    after: NodeState,
    effects: Seq<NodeEffect>,
) -> bool {
    if !before.synced() {
        effects.len() == 0 && after == before
    } else {
        &&& after.pending_txs@ == pool_with(
            before.pending_txs@,
            transaction.hash(),
            transaction,
        )
        &&& effects == if pool_contains(before.pending_txs@, transaction.hash()) {
            Seq::<NodeEffect>::empty()
        } else {
            seq![NodeEffect::Notify(GUIEvents::NewPendingTx)]
        }
        &&& after.headers == before.headers
        &&& after.peers == before.peers
        &&& after.wallets == before.wallets
        &&& after.blocks == before.blocks
        &&& after.pending_blocks == before.pending_blocks
        &&& after.utxo == before.utxo
    }
}

/// A transaction that no block has confirmed has come.
pub fn handle_pending_transaction(state: &mut NodeState, transaction: Transaction) -> (effects: Vec<
    NodeEffect,
>)
    ensures
        pending_transaction_handled(*old(state), transaction@, *final(state), effects@),
{
    let mut effects: Vec<NodeEffect> = Vec::new();
    if !state.is_synced() {
        return effects;
    }
    match state.append_pending_tx(transaction) {
        Some(event) => {
            effects.push(NodeEffect::Notify(event));
            assert(effects@ =~= seq![NodeEffect::Notify(GUIEvents::NewPendingTx)]);
        },
        None => {},
    }
    effects
}

/// The peers after the first of them with this address, if there is one,
/// is changed as `change` says.
pub open spec fn with_peer_changed(
    peers: Seq<Peer>,
    address: NetAddress,
    change: spec_fn(Peer) -> Peer,
) -> Seq<Peer> {
    match peer_position(peers, address) {
        Some(i) => peers.update(i, change(peers[i])),
        None => peers,
    }
}

/// Whether `after` and `effects` are what a request for headers by the peer
/// at `address` makes of the state `before`: the peer is noted as having
/// asked, and the headers that answer its request are sent to it.
pub open spec fn send_headers_requested_handled(
    before: NodeState,
    address: NetAddress,
    request: GetHeadersView,
    after: NodeState,
    effects: Seq<NodeEffect>,
) -> bool {
    &&& after.peers@ == with_peer_changed(
        before.peers@,
        address,
        |peer: Peer| Peer { requested_headers: true, ..peer },
    )
    &&& effects.len() == 1
    &&& effects[0] matches NodeEffect::Reply(to, headers)
    &&& to == address
    &&& headers@ == reply_headers(before.headers@, request.block_locator_hashes, request.hash_stop)
    &&& after.headers == before.headers
    &&& after.wallets == before.wallets
    &&& after.blocks == before.blocks
    &&& after.pending_blocks == before.pending_blocks
    &&& after.utxo == before.utxo
    &&& after.pending_txs == before.pending_txs
}

/// The peer at `address` asks for headers.
pub fn handle_send_headers_requested(
    state: &mut NodeState,
    address: NetAddress,
    request: GetHeaders,
) -> (effects: Vec<NodeEffect>)
    ensures
        send_headers_requested_handled(*old(state), address, request@, *final(state), effects@),
{
    state.peer_requested_headers(address);
    let headers = state.get_headers(request);
    let mut effects: Vec<NodeEffect> = Vec::new();
    effects.push(NodeEffect::Reply(address, Headers::new(headers)));
    effects
}

/// Whether `after` and `effects` are what `action`, taken at time `now`,
/// makes of the state `before`. Blocks, headers, transactions, payments
/// and requests for headers are handled as their handlers say; a request
/// that could not be sent is made again; a peer that wants headers pushed
/// is noted as such; a peer whose connection failed is dropped.
pub open spec fn action_handled(
    before: NodeState,
    action: NodeAction,
    now: i64,
    after: NodeState,
    effects: Seq<NodeEffect>,
) -> bool {
    match action {
        NodeAction::Block(block_hash, block) => block_handled(
            before,
            block_hash@,
            block@,
            after,
            effects,
        ),
        NodeAction::NewHeaders(headers) => new_headers_handled(
            before,
            headers@,
            now,
            after,
            effects,
        ),
        NodeAction::GetHeadersError => get_headers_error_handled(before, effects) && after
            == before,
        NodeAction::GetDataError(inventory) => effects == seq![
            NodeEffect::Request(PeerAction::GetData(inventory)),
        ] && after == before,
        NodeAction::MakeTransaction(outputs, fee) => make_transaction_handled(
            before,
            payments_view(outputs@),
            fee,
            after,
            effects,
        ),
        NodeAction::PendingTransaction(transaction) => pending_transaction_handled(
            before,
            transaction@,
            after,
            effects,
        ),
        NodeAction::SendHeaders(address) => {
            &&& effects.len() == 0
            &&& after.peers@ == with_peer_changed(
                before.peers@,
                address,
                |peer: Peer| Peer { send_headers: true, ..peer },
            )
            &&& after.headers == before.headers
            &&& after.wallets == before.wallets
            &&& after.blocks == before.blocks
            &&& after.pending_blocks == before.pending_blocks
            &&& after.utxo == before.utxo
            &&& after.pending_txs == before.pending_txs
        },
        NodeAction::SendHeadersRequested(address, request) => send_headers_requested_handled(
            before,
            address,
            request@,
            after,
            effects,
        ),
        NodeAction::PeerError(address) => {
            &&& effects.len() == 0
            &&& after.peers@ == match peer_position(before.peers@, address) {
                Some(i) => before.peers@.remove(i),
                None => before.peers@,
            }
            &&& after.headers == before.headers
            &&& after.wallets == before.wallets
            &&& after.blocks == before.blocks
            &&& after.pending_blocks == before.pending_blocks
            &&& after.utxo == before.utxo
            &&& after.pending_txs == before.pending_txs
        },
    }
}

/// Takes one action, at time `now`, and says what is to be done outside.
pub fn handle_action(state: &mut NodeState, action: NodeAction, now: i64) -> (effects: Vec<
    NodeEffect,
>)
    ensures
        action_handled(*old(state), action, now, *final(state), effects@),
{
    match action {
        NodeAction::Block(block_hash, block) => handle_block(state, block_hash, block),
        NodeAction::NewHeaders(new_headers) => handle_new_headers(state, new_headers, now),
        NodeAction::GetHeadersError => handle_get_headers_error(state),
        NodeAction::GetDataError(inventory) => handle_get_data_error(inventory),
        NodeAction::MakeTransaction(outputs, fee) => handle_make_transaction(state, outputs, fee),
        NodeAction::PendingTransaction(transaction) => handle_pending_transaction(
            state,
            transaction,
        ),
        NodeAction::SendHeaders(address) => {
            state.peer_send_headers(address);
            Vec::new()
        },
        NodeAction::SendHeadersRequested(address, request) => handle_send_headers_requested(
            state,
            address,
            request,
        ),
        NodeAction::PeerError(address) => {
            state.remove_peer(address);
            Vec::new()
        },
    }
}

} // verus!
