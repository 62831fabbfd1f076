use vstd::prelude::*;
use crate::error::CustomError;
use crate::messages::block::{Block, BlockView};
use crate::messages::get_headers::GetHeaders;
use crate::messages::headers::Headers;
use crate::messages::transaction::{
    created_transaction, payments_view, Transaction, TransactionView,
};
use crate::parser::{rejected_with, NetAddress};
use crate::peer::Peer;
use crate::selection::{
    calculate_inputs, entry_outpoints, inputs_needed, lemma_inputs_reach_total,
    lemma_sorted_keeps_total, sort_by_value, sorted_by_value,
};
use crate::states::blocks_state::{one_more, BlockFile, BlocksStore};
use crate::states::headers_state::{
    downloaded_hashes, extend, headers_view, ready_range, with_pushed, last_headers, placed_headers_view, rejects,
    reply_headers, to_download_count, with_downloaded, HeadersChain, MAX_HEADERS_PER_REPLY,
};
use crate::states::pending_blocks_state::{
    hashes_view, is_pending, restamped, stale_hashes, with_request, without_request,
    PendingBlocks,
};
use crate::states::pending_txs_state::{
    movements_of, pool_contains, pool_position, pool_with, pool_without, transaction_hashes,
    PendingTxPool,
};
use crate::states::utxo_state::{
    apply_block, apply_blocks, entries_view, owned_entries, owned_value, total_value, OutPoint,
    OutPointView, UTXOValue, UTXOValueView, UTXO,
};
use crate::states::wallets_state::{reports, wallet_position, wallets_after, WalletsStore};
use crate::structs::block_header::{hex_upper, BlockHeader, BlockHeaderView};
use crate::wallet::{
    movements_view, pubkey_error_text, pubkey_hash_of, seed_history,
    seed_values_fit, wallets_view, Movement, Wallet, };

verus! {

/// What the node tells the user interface.
#[derive(Debug, Clone, Copy, PartialEq, Eq, Structural)]
pub enum GUIEvents {
    /// Headers were added to the chain.
    NewHeaders,
    /// Headers, blocks and unspent outputs are all up to date.
    NodeStateReady,
    /// Another wallet is active.
    WalletChanged,
    /// A block changed the history of a wallet.
    WalletsUpdated,
    /// A transaction entered the pool of pending transactions.
    NewPendingTx,
    /// A transaction of the user was sent to the peers.
    TransactionSent,
}

/// What is to be done outside once the node has taken a block.
#[derive(Debug, Clone)]
pub struct BlockOutcome {
    /// The file to write for the block.
    pub file: BlockFile,
    /// Whether the set of unspent outputs is now to be built from all the
    /// stored blocks.
    pub build_utxo: bool,
    /// Whether the user interface is to be told that the node is ready.
    pub ready: bool,
    /// Whether the user interface is to be told that wallets changed.
    pub wallets_updated: bool,
    /// The error of the wallets, when they could not take the block.
    pub failure: Option<CustomError>,
}

/// Where the first peer with this address stands, if there is one.
pub open spec fn peer_position(peers: Seq<Peer>, address: NetAddress) -> Option<int>
    decreases peers.len(),
{
    if peers.len() == 0 {
        None
    } else {
        match peer_position(peers.drop_last(), address) {
            Some(i) => Some(i),
            None => if peers.last().address == address {
                Some(peers.len() - 1)
            } else {
                None
            },
        }
    }
}

/// The place of the peer with the lowest benchmark; of the first of them
/// when several are lowest.
pub open spec fn fastest(peers: Seq<Peer>) -> int
    decreases peers.len(),
{
    if peers.len() <= 1 {
        0
    } else {
        let before = fastest(peers.drop_last());
        if peers.last().benchmark < peers[before].benchmark {
            peers.len() - 1
        } else {
            before
        }
    }
}

/// The place of the fastest peer is a place among the peers, and no
/// benchmark is lower than the one there.
pub proof fn lemma_fastest(peers: Seq<Peer>)
    requires
        peers.len() > 0,
    ensures
        0 <= fastest(peers) < peers.len(),
        forall|i: int|
            0 <= i < peers.len() ==> peers[fastest(peers)].benchmark <= (
            #[trigger] peers[i]).benchmark,
    decreases peers.len(),
{
    if peers.len() > 1 {
        lemma_fastest(peers.drop_last());
        assert forall|i: int| 0 <= i < peers.len() implies peers[fastest(peers)].benchmark <= (
        #[trigger] peers[i]).benchmark by {
            if i < peers.len() - 1 {
                assert(peers.drop_last()[i] == peers[i]);
            }
        }
    }
}

/// The first peer with an address among the first `n` peers is the first
/// among all of them, when all of them have been looked at or one has been
/// found.
pub proof fn lemma_peer_position_extends(peers: Seq<Peer>, address: NetAddress, n: int)
    requires
        0 <= n <= peers.len(),
        n == peers.len() || peer_position(peers.take(n), address) is Some,
    ensures
        peer_position(peers, address) == peer_position(peers.take(n), address),
    decreases peers.len(),
{
    if n == peers.len() {
        assert(peers.take(n) =~= peers);
    } else {
        assert(peers.drop_last().take(n) =~= peers.take(n));
        lemma_peer_position_extends(peers.drop_last(), address, n);
    }
}

/// The hashes of the blocks, in their order.
pub open spec fn block_hashes(blocks: Seq<BlockView>) -> Seq<Seq<u8>> {
    blocks.map_values(|block: BlockView| block.header.hash)
}

/// The sum of the amounts of the payments.
pub open spec fn payments_total(payments: Seq<(Seq<char>, u64)>) -> nat
    decreases payments.len(),
{
    if payments.len() == 0 {
        0
    } else {
        payments_total(payments.drop_last()) + payments.last().1 as nat
    }
}

/// What making a transaction gives.
pub enum Assembly {
    /// The transaction.
    Made(TransactionView),
    /// No wallet is active.
    NoWallet,
    /// The key of the active wallet or of a payment cannot be read.
    KeyUnreadable,
    /// The payments and the fee, or the funds of the wallet, do not fit in
    /// 64 bits.
    OutOfRange,
    /// The wallet cannot pay the payments and the fee.
    Insufficient,
}

/// The transaction that pays `payments` and `fee` out of the unspent
/// outputs `entries` of the wallet with public key `pubkey`: the outputs
/// of the wallet are taken from the largest value down until they pay the
/// total; what they pay above it goes back to the wallet as one more
/// payment, the last.
pub open spec fn assemble(
    pubkey: Seq<char>,
    entries: Seq<(OutPointView, UTXOValueView)>,
    payments: Seq<(Seq<char>, u64)>,
    fee: u64,
) -> Assembly {
    let total = fee + payments_total(payments);
    match pubkey_hash_of(pubkey) {
        None => if total > u64::MAX {
            Assembly::OutOfRange
        } else {
            Assembly::KeyUnreadable
        },
        Some(key_hash) => {
            let owned = owned_entries(entries, key_hash);
            let sorted = sorted_by_value(owned);
            let taken = sorted.take(inputs_needed(sorted, total) as int);
            let change = total_value(taken) - total;
            if total > u64::MAX || total_value(owned) > u64::MAX {
                Assembly::OutOfRange
            } else if total > total_value(owned) {
                Assembly::Insufficient
            } else {
                match created_transaction(
                    pubkey,
                    entry_outpoints(taken),
                    if change > 0 {
                        payments.push((pubkey, change as u64))
                    } else {
                        payments
                    },
                ) {
                    Some(transaction) => Assembly::Made(transaction),
                    None => Assembly::KeyUnreadable,
                }
            }
        },
    }
}

/// Whether `r` is what making a transaction gives for `assembly`.
pub open spec fn assembly_result(assembly: Assembly, r: Result<Transaction, CustomError>) -> bool {
    match assembly {
        Assembly::Made(transaction) => r is Ok && r->Ok_0@ == transaction,
        Assembly::NoWallet => r is Err && r->Err_0 == CustomError::WalletNotFound,
        Assembly::KeyUnreadable => r is Err && rejected_with(r->Err_0, pubkey_error_text()),
        Assembly::OutOfRange => r is Err && r->Err_0 == CustomError::ValueOutOfRange,
        Assembly::Insufficient => r is Err && r->Err_0 == CustomError::InsufficientFunds,
    }
}

/// Whether `after` and `outcome` are what taking the block `block`, come
/// for the hash `block_hash`, makes of the state `before`. The block is to
/// be stored under its hash; its request is dropped, its header is noted as
/// downloaded, and the store notes whether it now has every block that the
/// chain asks for. Then the wallets take the block, with the unspent
/// outputs as they are before it. When they cannot, their error is the
/// outcome and nothing more changes. Else the pending transactions that
/// the block confirms leave the pool, and when headers and blocks are up
/// to date the block is applied to the unspent outputs, if those were up
/// to date, or the unspent outputs are to be built from all the stored
/// blocks, if they were not.
pub open spec fn block_taken(
    before: NodeState,
    block_hash: Seq<u8>,
    block: BlockView,
    after: NodeState,
    outcome: BlockOutcome,
) -> bool {
    &&& outcome.file.name@ == hex_upper(block_hash)
    &&& outcome.file.content@ == block.serialize()
    &&& after.pending_blocks@ == without_request(before.pending_blocks@, block_hash)
    &&& !is_pending(after.pending_blocks@, block_hash)
    &&& after.headers@ == with_downloaded(before.headers@, block_hash)
    &&& after.headers.synced() == before.headers.synced()
    &&& after.headers.anchor() == before.headers.anchor()
    &&& after.blocks.downloaded() == one_more(before.blocks.downloaded())
    &&& after.blocks.synced() == (after.blocks.downloaded() == to_download_count(
        before.headers@,
    ))
    &&& after.peers == before.peers
    &&& after.wallets.active() == before.wallets.active()
    &&& after.utxo.synced() == before.utxo.synced()
    &&& match wallets_after(
        before.wallets@,
        block.transactions,
        before.utxo@,
        block.header.hash,
    ) {
        Err(failure) => {
            &&& outcome.failure is Some
            &&& reports(outcome.failure->Some_0, failure)
            &&& after.wallets@ == before.wallets@
            &&& after.pending_txs@ == before.pending_txs@
            &&& after.utxo@ == before.utxo@
            &&& !outcome.build_utxo
            &&& !outcome.wallets_updated
        },
        Ok(wallets) => {
            &&& outcome.failure is None
            &&& after.wallets@ == wallets
            &&& outcome.wallets_updated == (wallets != before.wallets@)
            &&& after.pending_txs@ == pool_without(
                before.pending_txs@,
                transaction_hashes(block.transactions),
            )
            &&& after.utxo@ == if after.synced() {
                apply_block(before.utxo@, block)
            } else {
                before.utxo@
            }
            &&& outcome.build_utxo == (after.headers.synced() && after.blocks.synced() && !before.utxo.synced())
        },
    }
    &&& outcome.ready == after.synced()
}

/// The state of the node: the chain of headers, the requests for blocks
/// that are under way, the store of blocks, the set of unspent outputs,
/// the wallets, the pending transactions, and the peers.
pub struct NodeState {
    pub headers: HeadersChain,
    pub peers: Vec<Peer>,
    pub wallets: WalletsStore,
    pub blocks: BlocksStore,
    pub pending_blocks: PendingBlocks,
    pub utxo: UTXO,
    pub pending_txs: PendingTxPool,
}

impl NodeState {
    /// Whether headers, blocks and unspent outputs are all up to date.
    pub open spec fn synced(&self) -> bool {
        self.headers.synced() && self.blocks.synced() && self.utxo.synced()
    }

    /// The state of a node that has seen nothing yet: its chain starts
    /// behind the block with hash `anchor`.
    pub fn new(anchor: Vec<u8>) -> (state: Self)
        ensures
            state.headers@.len() == 0,
            state.headers.anchor() == anchor@,
            !state.headers.synced(),
            state.peers@.len() == 0,
            state.wallets@.len() == 0,
            state.wallets.active() is None,
            state.blocks.downloaded() == 0,
            !state.blocks.synced(),
            state.pending_blocks@.len() == 0,
            state.utxo@.len() == 0,
            !state.utxo.synced(),
            state.pending_txs@.len() == 0,
    {
        Self {
            headers: HeadersChain::new(anchor),
            peers: Vec::new(),
            wallets: WalletsStore::new(),
            blocks: BlocksStore::new(0),
            pending_blocks: PendingBlocks::new(),
            utxo: UTXO::new(),
            pending_txs: PendingTxPool::new(),
        }
    }

    /// Takes a block that has come for the hash `block_hash`, and says
    /// what is to be done outside: which file to write, and what to tell.
    pub fn append_block(&mut self, block_hash: Vec<u8>, block: &Block) -> (outcome: BlockOutcome)
        ensures
            block_taken(*old(self), block_hash@, block@, *final(self), outcome),
    {
        let total = self.headers.total_headers_to_download();
        let file = self.blocks.append_block(&mut self.pending_blocks, &block_hash, block, total);
        let _ = self.headers.set_downloaded(&block_hash);
        let ready = self.is_synced();
        let fully = self.headers.is_synced() && self.blocks.is_synced();
        match self.wallets.update(block, &self.utxo) {
            Err(e) => BlockOutcome {
                file,
                build_utxo: false,
                ready,
                wallets_updated: false,
                failure: Some(e),
            },
            Ok(wallets_updated) => {
                self.pending_txs.update_on_block(block);
                let mut build_utxo = false;
                if fully {
                    if self.utxo.is_synced() {
                        let _ = self.utxo.update_from_block(block, true);
                    } else {
                        build_utxo = true;
                    }
                }
                BlockOutcome { file, build_utxo, ready, wallets_updated, failure: None }
            },
        }
    }

    /// The block that the bytes of a block file hold. `content` is what
    /// was found under the block's name: nothing when there is no such
    /// file.
    pub fn get_block(&self, content: Option<Vec<u8>>) -> (r: Result<Block, CustomError>)
        ensures
            match content {
                None => r is Err && r->Err_0 == CustomError::BlockNotFound,
                Some(bytes) => match BlockView::parse(bytes@) {
                    Ok(block) => r is Ok && r->Ok_0@ == block,
                    Err(e) => r is Err && r->Err_0 == e,
                },
            },
    {
        BlocksStore::get_block(content)
    }

    /// The peers.
    pub fn get_peers(&self) -> (peers: &Vec<Peer>)
        ensures
            *peers == self.peers,
    {
        &self.peers
    }

    /// Where the first peer with this address stands.
    fn find_peer(&self, address: &NetAddress) -> (found: Option<usize>)
        ensures
            match found {
                Some(k) => k < self.peers@.len() && peer_position(self.peers@, *address) == Some(
                    k as int,
                ),
                None => peer_position(self.peers@, *address) is None,
            },
    {
        let ghost peers = self.peers@;
        let mut found: Option<usize> = None;
        let mut i: usize = 0;
        while i < self.peers.len() && found.is_none()
            invariant
                i <= self.peers@.len(),
                peers == self.peers@,
                found is None ==> peer_position(peers.take(i as int), *address) is None,
                found matches Some(k) ==> k < self.peers@.len() && peer_position(
                    peers.take(i as int),
                    *address,
                ) == Some(k as int),
            decreases
                    self.peers@.len() - i + if found is None {
                        1int
                    } else {
                        0int
                    },
        {
            proof {
                let next = peers.take(i + 1);
                assert(next.drop_last() =~= peers.take(i as int));
                assert(next.last() == peers[i as int]);
            }
            if self.peers[i].address == *address {
                found = Some(i);
            }
            i = i + 1;
        }
        proof {
            lemma_peer_position_extends(peers, *address, i as int);
        }
        found
    }

    /// The first peer with this address, if there is one.
    pub fn get_peer(&self, address: &NetAddress) -> (peer: Option<&Peer>)
        ensures
            match peer_position(self.peers@, *address) {
                Some(i) => peer == Some(&self.peers@[i]),
                None => peer is None,
            },
    {
        match self.find_peer(address) {
            Some(i) => Some(&self.peers[i]),
            None => None,
        }
    }

    /// Adds peers at the end.
    pub fn append_peers(&mut self, peers: Vec<Peer>)
        ensures
            final(self).peers@ == old(self).peers@ + peers@,
            final(self).headers == old(self).headers,
            final(self).wallets == old(self).wallets,
            final(self).blocks == old(self).blocks,
            final(self).pending_blocks == old(self).pending_blocks,
            final(self).utxo == old(self).utxo,
            final(self).pending_txs == old(self).pending_txs,
    {
        let mut peers = peers;
        self.peers.append(&mut peers);
    }

    /// Drops the first peer with this address, if there is one.
    pub fn remove_peer(&mut self, address: NetAddress)
        ensures
            final(self).peers@ == match peer_position(old(self).peers@, address) {
                Some(i) => old(self).peers@.remove(i),
                None => old(self).peers@,
            },
            final(self).headers == old(self).headers,
            final(self).wallets == old(self).wallets,
            final(self).blocks == old(self).blocks,
            final(self).pending_blocks == old(self).pending_blocks,
            final(self).utxo == old(self).utxo,
            final(self).pending_txs == old(self).pending_txs,
    {
        match self.find_peer(&address) {
            Some(index) => {
                let _ = self.peers.remove(index);
            },
            None => {},
        }
    }

    /// Notes that the first peer with this address wants headers pushed to
    /// it.
    pub fn peer_send_headers(&mut self, address: NetAddress)
        ensures
            final(self).peers@ == match peer_position(old(self).peers@, address) {
                Some(i) => old(self).peers@.update(
                    i,
                    Peer { send_headers: true, ..old(self).peers@[i] },
                ),
                None => old(self).peers@,
            },
            final(self).headers == old(self).headers,
            final(self).wallets == old(self).wallets,
            final(self).blocks == old(self).blocks,
            final(self).pending_blocks == old(self).pending_blocks,
            final(self).utxo == old(self).utxo,
            final(self).pending_txs == old(self).pending_txs,
    {
        match self.find_peer(&address) {
            Some(index) => {
                let mut peer = self.peers[index];
                peer.send_headers = true;
                self.peers[index] = peer;
            },
            None => {},
        }
    }

    /// Notes that the first peer with this address has asked for headers.
    pub fn peer_requested_headers(&mut self, address: NetAddress)
        ensures
            final(self).peers@ == match peer_position(old(self).peers@, address) {
                Some(i) => old(self).peers@.update(
                    i,
                    Peer { requested_headers: true, ..old(self).peers@[i] },
                ),
                None => old(self).peers@,
            },
            final(self).headers == old(self).headers,
            final(self).wallets == old(self).wallets,
            final(self).blocks == old(self).blocks,
            final(self).pending_blocks == old(self).pending_blocks,
            final(self).utxo == old(self).utxo,
            final(self).pending_txs == old(self).pending_txs,
    {
        match self.find_peer(&address) {
            Some(index) => {
                let mut peer = self.peers[index];
                peer.requested_headers = true;
                self.peers[index] = peer;
            },
            None => {},
        }
    }

    /// The peer whose handshake was the fastest; the first of them when
    /// several were.
    pub fn get_fastest_peer(&self) -> (peer: Option<&Peer>)
        ensures
            self.peers@.len() == 0 ==> peer is None,
            self.peers@.len() > 0 ==> peer == Some(&self.peers@[fastest(self.peers@)]),
    {
        if self.peers.len() == 0 {
            return None;
        }
        let ghost peers = self.peers@;
        let mut best: usize = 0;
        let mut i: usize = 1;
        while i < self.peers.len()
            invariant
                1 <= i <= self.peers@.len(),
                peers == self.peers@,
                best == fastest(peers.take(i as int)),
                best < i,
            decreases self.peers@.len() - i,
        {
            proof {
                let next = peers.take(i + 1);
                assert(next.drop_last() =~= peers.take(i as int));
                assert(next.last() == peers[i as int]);
                assert(peers.take(i as int)[best as int] == peers[best as int]);
            }
            if self.peers[i].benchmark < self.peers[best].benchmark {
                best = i;
            }
            i = i + 1;
        }
        assert(peers.take(i as int) =~= peers);
        Some(&self.peers[best])
    }

    /// The hash of the tip of the chain, when the chain has a header.
    pub fn get_last_header_hash(&self) -> (hash: Option<Vec<u8>>)
        ensures
            self.headers@.len() == 0 ==> hash is None,
            self.headers@.len() > 0 ==> hash is Some && hash->Some_0@ == self.headers@.last().hash,
    {
        self.headers.get_last_header_hash()
    }

    /// The headers of `headers` as the chain is offered them: each noted
    /// as broadcast already when the node is not up to date.
    pub open spec fn offered(&self, headers: Seq<BlockHeaderView>) -> Seq<BlockHeaderView> {
        headers.map_values(
            |header: BlockHeaderView|
                if self.synced() {
                    header
                } else {
                    BlockHeaderView { broadcasted: true, ..header }
                },
        )
    }

    /// Offers the headers of an answer to the chain. While the node is not
    /// up to date every header is first noted as broadcast already. The
    /// user interface is to be told of new headers when the chain turned no
    /// header away.
    pub fn append_headers(&mut self, headers: &Headers) -> (r: Result<GUIEvents, CustomError>)
        ensures
            final(self).headers@ == extend(
                old(self).headers@,
                old(self).headers.anchor(),
                old(self).offered(headers@),
            ),
            final(self).headers.anchor() == old(self).headers.anchor(),
            final(self).headers.synced() == (headers@.len() < MAX_HEADERS_PER_REPLY),
            rejects(old(self).headers@, old(self).headers.anchor(), old(self).offered(headers@))
                ==> r is Err && r->Err_0 == CustomError::HeaderNotLinked,
            !rejects(old(self).headers@, old(self).headers.anchor(), old(self).offered(headers@))
                ==> r == Ok::<GUIEvents, CustomError>(GUIEvents::NewHeaders),
            final(self).peers == old(self).peers,
            final(self).wallets == old(self).wallets,
            final(self).blocks == old(self).blocks,
            final(self).pending_blocks == old(self).pending_blocks,
            final(self).utxo == old(self).utxo,
            final(self).pending_txs == old(self).pending_txs,
    {
        let synced = self.is_synced();
        let ghost offered = self.offered(headers@);
        let mut new_headers: Vec<BlockHeader> = Vec::new();
        let mut i: usize = 0;
        while i < headers.headers.len()
            invariant
                i <= headers.headers@.len(),
                synced == self.synced(),
                offered == self.offered(headers@),
                new_headers@.len() == i,
                forall|j: int| 0 <= j < i ==> (#[trigger] new_headers@[j])@ == offered[j],
            decreases headers.headers@.len() - i,
        {
            let mut header = headers.headers[i].duplicate();
            if !synced {
                header.broadcasted = true;
            }
            new_headers.push(header);
            i = i + 1;
        }
        assert(headers_view(new_headers@) =~= offered);
        match self.headers.append_headers(new_headers) {
            Ok(()) => Ok(GUIEvents::NewHeaders),
            Err(e) => Err(e),
        }
    }

    /// The newest `count` headers, the tip first, each with its place in
    /// the chain.
    pub fn get_last_headers(&self, count: usize) -> (headers: Vec<(usize, BlockHeader)>)
        ensures
            placed_headers_view(headers@) == last_headers(self.headers@, count as nat),
    {
        self.headers.get_last_headers(count)
    }

    /// The headers that answer a request for headers.
    pub fn get_headers(&self, get_headers: GetHeaders) -> (headers: Vec<BlockHeader>)
        ensures
            headers_view(headers@) == reply_headers(
                self.headers@,
                get_headers@.block_locator_hashes,
                get_headers@.hash_stop,
            ),
    {
        self.headers.get_headers(&get_headers)
    }

    /// The headers that are to be pushed to the peers now that the block
    /// with hash `block_hash` is stored; they are noted as pushed.
    pub fn get_headers_to_send(&mut self, block_hash: &Vec<u8>) -> (headers: Vec<BlockHeader>)
        ensures
            headers_view(headers@) == old(self).headers@.subrange(
                ready_range(old(self).headers@, block_hash@).0,
                ready_range(old(self).headers@, block_hash@).1,
            ),
            final(self).headers@ == with_pushed(
                old(self).headers@,
                ready_range(old(self).headers@, block_hash@).0,
                ready_range(old(self).headers@, block_hash@).1,
            ),
            final(self).headers.anchor() == old(self).headers.anchor(),
            final(self).headers.synced() == old(self).headers.synced(),
            final(self).peers == old(self).peers,
            final(self).wallets == old(self).wallets,
            final(self).blocks == old(self).blocks,
            final(self).pending_blocks == old(self).pending_blocks,
            final(self).utxo == old(self).utxo,
            final(self).pending_txs == old(self).pending_txs,
    {
        self.headers.get_headers_to_send(block_hash)
    }

    /// Whether headers, blocks and unspent outputs are all up to date.
    pub fn is_synced(&self) -> (synced: bool)
        ensures
            synced == self.synced(),
    {
        self.headers.is_synced() && self.blocks.is_synced() && self.utxo.is_synced()
    }

    /// Looks again at how far the node is: when the headers are up to date
    /// the store of blocks notes whether it has every block that the chain
    /// asks for. Says whether the unspent outputs are now to be built from
    /// all the stored blocks, and whether the user interface is to be told
    /// that the node is ready.
    pub fn verify_sync(&mut self) -> (r: (bool, Option<GUIEvents>))
        ensures
            final(self).blocks.downloaded() == old(self).blocks.downloaded(),
            final(self).blocks.synced() == if old(self).headers.synced() {
                old(self).blocks.downloaded() == to_download_count(old(self).headers@)
            } else {
                old(self).blocks.synced()
            },
            r.0 == (final(self).blocks.synced() && !old(self).utxo.synced()),
            r.1 == if final(self).synced() {
                Some(GUIEvents::NodeStateReady)
            } else {
                None
            },
            final(self).headers == old(self).headers,
            final(self).peers == old(self).peers,
            final(self).wallets == old(self).wallets,
            final(self).pending_blocks == old(self).pending_blocks,
            final(self).utxo == old(self).utxo,
            final(self).pending_txs == old(self).pending_txs,
    {
        if self.headers.is_synced() {
            let total = self.headers.total_headers_to_download();
            self.blocks.verify_sync(total);
        }
        let build_utxo = self.blocks.is_synced() && !self.utxo.is_synced();
        let event = if self.is_synced() {
            Some(GUIEvents::NodeStateReady)
        } else {
            None
        };
        (build_utxo, event)
    }

    /// Builds the unspent outputs from `blocks`, which are to be the blocks
    /// of the headers that are noted as downloaded, in the order of the
    /// chain. When they are, the blocks are applied in that order and the
    /// unspent outputs count as up to date; the answer says whether the
    /// user interface is to be told that the node is ready. When they are
    /// not, nothing changes and an error says that a block is missing.
    #[verifier::loop_isolation(false)]
    pub fn generate_utxo(&mut self, blocks: &Vec<Block>) -> (r: Result<
        Option<GUIEvents>,
        CustomError,
    >)
        ensures
            block_hashes(crate::messages::block::blocks_view(blocks@)) == downloaded_hashes(
                old(self).headers@,
            ) ==> r is Ok && final(self).utxo@ == apply_blocks(
                old(self).utxo@,
                crate::messages::block::blocks_view(blocks@),
            ) && final(self).utxo.synced() && r->Ok_0 == if final(self).synced() {
                Some(GUIEvents::NodeStateReady)
            } else {
                None
            },
            block_hashes(crate::messages::block::blocks_view(blocks@)) != downloaded_hashes(
                old(self).headers@,
            ) ==> r is Err && r->Err_0 == CustomError::BlockNotFound && final(self).utxo == old(self).utxo,
            final(self).headers == old(self).headers,
            final(self).peers == old(self).peers,
            final(self).wallets == old(self).wallets,
            final(self).blocks == old(self).blocks,
            final(self).pending_blocks == old(self).pending_blocks,
            final(self).pending_txs == old(self).pending_txs,
    {
        let expected = self.headers.get_downloaded_hashes();
        let ghost found = block_hashes(crate::messages::block::blocks_view(blocks@));
        let ghost wanted = hashes_view(expected@);
        if blocks.len() != expected.len() {
            assert(found.len() == blocks@.len());
            assert(wanted.len() == expected@.len());
            return Err(CustomError::BlockNotFound);
        }
        let mut i: usize = 0;
        while i < blocks.len()
            invariant
                i <= blocks@.len(),
                blocks@.len() == expected@.len(),
                found == block_hashes(crate::messages::block::blocks_view(blocks@)),
                wanted == hashes_view(expected@),
                forall|j: int| 0 <= j < i ==> found[j] == wanted[j],
            decreases blocks@.len() - i,
        {
            if !crate::hashing::bytes_equal(
                blocks[i].header.hash.as_slice(),
                expected[i].as_slice(),
            ) {
                assert(found[i as int] != wanted[i as int]);
                return Err(CustomError::BlockNotFound);
            }
            i = i + 1;
        }
        assert(found =~= wanted);
        self.utxo.generate(blocks);
        if self.is_synced() {
            Ok(Some(GUIEvents::NodeStateReady))
        } else {
            Ok(None)
        }
    }

    /// The wallets.
    pub fn get_wallets(&self) -> (wallets: &Vec<Wallet>)
        ensures
            wallets_view(wallets@) == self.wallets@,
    {
        self.wallets.get_all()
    }

    /// Makes a wallet with the given name and keys and adds it to the
    /// wallets. Its history starts with one movement for each unspent
    /// output that pays to its public key.
    pub fn append_wallet(&mut self, name: String, public_key: String, private_key: String) -> (r:
        Result<(), CustomError>)
        ensures
            r is Ok ==> final(self).wallets@.len() == old(self).wallets@.len() + 1,
            r is Ok ==> final(self).wallets@.drop_last() == old(self).wallets@,
            r is Ok ==> final(self).wallets@.last().name == name@,
            r is Ok ==> final(self).wallets@.last().pubkey == public_key@,
            r is Ok ==> final(self).wallets@.last().privkey == private_key@,
            r is Err ==> final(self).wallets@ == old(self).wallets@,
            old(self).utxo@.len() == 0 ==> r is Ok && final(self).wallets@.last().history.len()
                == 0,
            old(self).utxo@.len() > 0 ==> match pubkey_hash_of(public_key@) {
                None => r is Err && rejected_with(r->Err_0, pubkey_error_text()),
                Some(hash) => if seed_values_fit(old(self).utxo@, hash) {
                    r is Ok && final(self).wallets@.last().history == seed_history(
                        old(self).utxo@,
                        hash,
                    )
                } else {
                    r is Err && r->Err_0 == CustomError::ValueOutOfRange
                },
            },
            final(self).wallets.active() == old(self).wallets.active(),
            final(self).headers == old(self).headers,
            final(self).peers == old(self).peers,
            final(self).blocks == old(self).blocks,
            final(self).pending_blocks == old(self).pending_blocks,
            final(self).utxo == old(self).utxo,
            final(self).pending_txs == old(self).pending_txs,
    {
        match Wallet::new(name, public_key, private_key, &self.utxo) {
            Ok(new_wallet) => {
                self.wallets.append(new_wallet);
                assert(self.wallets@.drop_last() =~= old(self).wallets@);
                Ok(())
            },
            Err(e) => Err(e),
        }
    }

    /// The active wallet, when one is active.
    pub fn get_active_wallet(&self) -> (wallet: Option<&Wallet>)
        ensures
            match self.wallets.active() {
                Some(i) => wallet is Some && wallet->Some_0@ == self.wallets@[i],
                None => wallet is None,
            },
    {
        self.wallets.get_active()
    }

    /// Makes the first wallet with the public key `public_key` the active
    /// one; the user interface is to be told. Fails when no wallet has
    /// that key.
    pub fn change_wallet(&mut self, public_key: String) -> (r: Result<GUIEvents, CustomError>)
        ensures
            final(self).wallets@ == old(self).wallets@,
            match wallet_position(old(self).wallets@, public_key@) {
                Some(i) => r == Ok::<GUIEvents, CustomError>(GUIEvents::WalletChanged)
                    && final(self).wallets.active() == Some(i),
                None => r is Err && r->Err_0 == CustomError::WalletNotFound
                    && final(self).wallets.active() == old(self).wallets.active(),
            },
            final(self).headers == old(self).headers,
            final(self).peers == old(self).peers,
            final(self).blocks == old(self).blocks,
            final(self).pending_blocks == old(self).pending_blocks,
            final(self).utxo == old(self).utxo,
            final(self).pending_txs == old(self).pending_txs,
    {
        match self.wallets.set_active(&public_key) {
            Ok(()) => Ok(GUIEvents::WalletChanged),
            Err(e) => Err(e),
        }
    }

    /// Adds to the history of each wallet the movements that `block` makes
    /// in its funds. The user interface is to be told when a history grew.
    pub fn update_wallets(&mut self, block: &Block) -> (r: Result<Option<GUIEvents>, CustomError>)
        ensures
            match wallets_after(
                old(self).wallets@,
                block@.transactions,
                old(self).utxo@,
                block@.header.hash,
            ) {
                Ok(wallets) => r is Ok && final(self).wallets@ == wallets && r->Ok_0 == if wallets
                    != old(self).wallets@ {
                    Some(GUIEvents::WalletsUpdated)
                } else {
                    None
                },
                Err(failure) => r is Err && reports(r->Err_0, failure) && final(self).wallets@
                    == old(self).wallets@,
            },
            final(self).wallets.active() == old(self).wallets.active(),
            final(self).headers == old(self).headers,
            final(self).peers == old(self).peers,
            final(self).blocks == old(self).blocks,
            final(self).pending_blocks == old(self).pending_blocks,
            final(self).utxo == old(self).utxo,
            final(self).pending_txs == old(self).pending_txs,
    {
        match self.wallets.update(block, &self.utxo) {
            Ok(true) => Ok(Some(GUIEvents::WalletsUpdated)),
            Ok(false) => Ok(None),
            Err(e) => Err(e),
        }
    }

    /// The funds of the active wallet.
    pub fn get_active_wallet_balance(&self) -> (r: Result<u64, CustomError>)
        ensures
            match self.wallets.active() {
                None => r is Err && r->Err_0 == CustomError::WalletNotFound,
                Some(i) => match pubkey_hash_of(self.wallets@[i].pubkey) {
                    None => r is Err && rejected_with(r->Err_0, pubkey_error_text()),
                    Some(hash) => if owned_value(self.utxo@, hash) <= u64::MAX {
                        r == Ok::<u64, CustomError>(owned_value(self.utxo@, hash) as u64)
                    } else {
                        r == Err::<u64, CustomError>(CustomError::ValueOutOfRange)
                    },
                },
            },
    {
        match self.wallets.get_active() {
            None => Err(CustomError::WalletNotFound),
            Some(active_wallet) => self.utxo.wallet_balance(active_wallet),
        }
    }

    /// The unspent outputs of the active wallet.
    pub fn get_active_wallet_utxo(&self) -> (r: Result<Vec<(OutPoint, UTXOValue)>, CustomError>)
        ensures
            match self.wallets.active() {
                None => r is Err && r->Err_0 == CustomError::WalletNotFound,
                Some(i) => match pubkey_hash_of(self.wallets@[i].pubkey) {
                    None => r is Err && rejected_with(r->Err_0, pubkey_error_text()),
                    Some(hash) => r is Ok && entries_view(r->Ok_0@) == owned_entries(
                        self.utxo@,
                        hash,
                    ),
                },
            },
    {
        match self.wallets.get_active() {
            None => Err(CustomError::WalletNotFound),
            Some(active_wallet) => self.utxo.generate_wallet_utxo(active_wallet),
        }
    }

    /// Drops the pending transactions that `block` confirms.
    pub fn update_pending_tx(&mut self, block: &Block)
        ensures
            final(self).pending_txs@ == pool_without(
                old(self).pending_txs@,
                transaction_hashes(block@.transactions),
            ),
            final(self).headers == old(self).headers,
            final(self).peers == old(self).peers,
            final(self).wallets == old(self).wallets,
            final(self).blocks == old(self).blocks,
            final(self).pending_blocks == old(self).pending_blocks,
            final(self).utxo == old(self).utxo,
    {
        self.pending_txs.update_on_block(block)
    }

    /// The movements that the pending transactions make in the funds of
    /// the active wallet.
    pub fn get_active_wallet_pending_txs(&self) -> (r: Result<Vec<Movement>, CustomError>)
        ensures
            match self.wallets.active() {
                None => r is Err && r->Err_0 == CustomError::WalletNotFound,
                Some(i) => match pubkey_hash_of(self.wallets@[i].pubkey) {
                    None => r is Err && rejected_with(r->Err_0, pubkey_error_text()),
                    Some(hash) => match movements_of(self.pending_txs@, self.utxo@, hash, None) {
                        Some(movements) => r is Ok && movements_view(r->Ok_0@) == movements,
                        None => r is Err && r->Err_0 == CustomError::ValueOutOfRange,
                    },
                },
            },
    {
        match self.wallets.get_active() {
            None => Err(CustomError::WalletNotFound),
            Some(active_wallet) => self.pending_txs.movements_from_wallet(active_wallet, &self.utxo),
        }
    }

    /// Offers a transaction to the pool of pending transactions. The user
    /// interface is to be told when it entered.
    pub fn append_pending_tx(&mut self, transaction: Transaction) -> (event: Option<GUIEvents>)
        ensures
            final(self).pending_txs@ == pool_with(
                old(self).pending_txs@,
                transaction@.hash(),
                transaction@,
            ),
            event == if pool_contains(old(self).pending_txs@, transaction@.hash()) {
                None
            } else {
                Some(GUIEvents::NewPendingTx)
            },
            final(self).headers == old(self).headers,
            final(self).peers == old(self).peers,
            final(self).wallets == old(self).wallets,
            final(self).blocks == old(self).blocks,
            final(self).pending_blocks == old(self).pending_blocks,
            final(self).utxo == old(self).utxo,
    {
        if self.pending_txs.append(transaction) {
            Some(GUIEvents::NewPendingTx)
        } else {
            None
        }
    }

    /// The pending transaction with this hash, if the pool holds it.
    pub fn get_pending_tx(&self, tx_hash: &Vec<u8>) -> (transaction: Option<Transaction>)
        ensures
            match pool_position(self.pending_txs@, tx_hash@) {
                Some(i) => transaction is Some && transaction->Some_0@ == self.pending_txs@[i].1,
                None => transaction is None,
            },
    {
        match self.pending_txs.get_pending_tx(tx_hash) {
            Some(transaction) => Some(transaction.duplicate()),
            None => None,
        }
    }

    /// Notes that the block with hash `header_hash` is asked for now.
    pub fn append_pending_block(&mut self, header_hash: Vec<u8>)
        ensures
            exists|now: i64|
                final(self).pending_blocks@ == with_request(
                    old(self).pending_blocks@,
                    header_hash@,
                    now,
                ),
            final(self).headers == old(self).headers,
            final(self).peers == old(self).peers,
            final(self).wallets == old(self).wallets,
            final(self).blocks == old(self).blocks,
            final(self).utxo == old(self).utxo,
            final(self).pending_txs == old(self).pending_txs,
    {
        self.pending_blocks.append_block(header_hash)
    }

    /// The hashes whose requests are stale now; each of them gets the time
    /// of this call.
    pub fn get_stale_requests(&mut self) -> (stale: Vec<Vec<u8>>)
        ensures
            exists|now: i64|
                hashes_view(stale@) == stale_hashes(old(self).pending_blocks@, now)
                    && final(self).pending_blocks@ == restamped(old(self).pending_blocks@, now),
            final(self).headers == old(self).headers,
            final(self).peers == old(self).peers,
            final(self).wallets == old(self).wallets,
            final(self).blocks == old(self).blocks,
            final(self).utxo == old(self).utxo,
            final(self).pending_txs == old(self).pending_txs,
    {
        self.pending_blocks.get_stale_requests()
    }

    /// Whether the block with hash `block_hash` is asked for and not yet
    /// stored.
    pub fn is_block_pending(&self, block_hash: &Vec<u8>) -> (pending: bool)
        ensures
            pending == is_pending(self.pending_blocks@, block_hash@),
    {
        self.pending_blocks.is_block_pending(block_hash)
    }

    /// Whether no block is pending.
    pub fn is_pending_blocks_empty(&self) -> (empty: bool)
        ensures
            empty == (self.pending_blocks@.len() == 0),
    {
        self.pending_blocks.is_empty()
    }

    /// Makes the transaction that pays `outputs`, each a public key in
    /// base 58 and an amount, and the fee `fee` out of the unspent outputs
    /// of the active wallet. The outputs of the wallet are taken from the
    /// largest value down until they pay the total; what they pay above
    /// it goes back to the wallet as the last output. The transaction is
    /// not signed.
    pub fn make_transaction(&mut self, outputs: Vec<(String, u64)>, fee: u64) -> (r: Result<
        Transaction,
        CustomError,
    >)
        ensures
            assembly_result(
                match old(self).wallets.active() {
                    None => Assembly::NoWallet,
                    Some(i) => assemble(
                        old(self).wallets@[i].pubkey,
                        old(self).utxo@,
                        payments_view(outputs@),
                        fee,
                    ),
                },
                r,
            ),
            *final(self) == *old(self),
    {
        let active_wallet = match self.wallets.get_active() {
            Some(wallet) => wallet,
            None => { return Err(CustomError::WalletNotFound); },
        };
        let ghost payments = payments_view(outputs@);
        let total_value = match self.calculate_total_value(fee, &outputs) {
            Ok(total) => total,
            Err(e) => { return Err(e); },
        };
        let active_wallet_utxo = match self.utxo.generate_wallet_utxo(active_wallet) {
            Ok(owned) => owned,
            Err(e) => { return Err(e); },
        };
        let ghost owned = entries_view(active_wallet_utxo@);
        let sorted = sort_by_value(active_wallet_utxo);
        proof {
            lemma_sorted_keeps_total(owned);
            lemma_inputs_reach_total(entries_view(sorted@), total_value as int);
        }
        let (inputs, total_input_value) = calculate_inputs(sorted.as_slice(), total_value);
        let change = total_input_value - total_value;
        let mut outputs = outputs;
        if change > 0 {
            outputs.push((active_wallet.pubkey.clone(), change));
            assert(payments_view(outputs@) =~= payments.push((active_wallet.pubkey@, change)));
        }
        Transaction::create(active_wallet, inputs, outputs)
    }

    /// The sum of the fee and the amounts of `outputs`, when the active
    /// wallet can pay it.
    fn calculate_total_value(&self, fee: u64, outputs: &Vec<(String, u64)>) -> (r: Result<
        u64,
        CustomError,
    >)
        requires
            self.wallets.active() is Some,
        ensures
            ({
                let total = fee + payments_total(payments_view(outputs@));
                let pubkey = self.wallets@[self.wallets.active()->Some_0].pubkey;
                if total > u64::MAX {
                    r is Err && r->Err_0 == CustomError::ValueOutOfRange
                } else {
                    match pubkey_hash_of(pubkey) {
                        None => r is Err && rejected_with(r->Err_0, pubkey_error_text()),
                        Some(hash) => if owned_value(self.utxo@, hash) > u64::MAX {
                            r is Err && r->Err_0 == CustomError::ValueOutOfRange
                        } else if total > owned_value(self.utxo@, hash) {
                            r is Err && r->Err_0 == CustomError::InsufficientFunds
                        } else {
                            r == Ok::<u64, CustomError>(total as u64)
                        },
                    }
                }
            }),
    {
        let ghost payments = payments_view(outputs@);
        let mut total_value: u64 = fee;
        let mut i: usize = 0;
        while i < outputs.len()
            invariant
                i <= outputs@.len(),
                payments == payments_view(outputs@),
                total_value == fee + payments_total(payments.take(i as int)),
            decreases outputs@.len() - i,
        {
            proof {
                let next = payments.take(i + 1);
                assert(next.drop_last() =~= payments.take(i as int));
                assert(next.last() == payments[i as int]);
            }
            if outputs[i].1 > u64::MAX - total_value {
                proof {
                    lemma_payments_grow(payments, i + 1);
                }
                return Err(CustomError::ValueOutOfRange);
            }
            total_value = total_value + outputs[i].1;
            i = i + 1;
        }
        assert(payments.take(i as int) =~= payments);
        let wallet_balance = match self.get_active_wallet_balance() {
            Ok(balance) => balance,
            Err(e) => { return Err(e); },
        };
        if total_value > wallet_balance {
            return Err(CustomError::InsufficientFunds);
        }
        Ok(total_value)
    }
}

/// The sum of the first payments is no more than the sum of all of them.
pub proof fn lemma_payments_grow(payments: Seq<(Seq<char>, u64)>, n: int)
    requires
        0 <= n <= payments.len(),
    ensures
        payments_total(payments.take(n)) <= payments_total(payments),
    decreases payments.len(),
{
    if n < payments.len() {
        assert(payments.drop_last().take(n) =~= payments.take(n));
        lemma_payments_grow(payments.drop_last(), n);
    } else {
        assert(payments.take(n) =~= payments);
    }
}

} // verus!
