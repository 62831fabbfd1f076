use vstd::prelude::*;
use crate::error::CustomError;
use crate::hashing::copy_bytes;
use crate::messages::block::{transactions_view, Block};
use crate::messages::transaction::TransactionView;
use crate::parser::{rejected_with, Parsed};
use crate::states::pending_txs_state::{lemma_movements_fail, movements_of};
use crate::states::utxo_state::{OutPointView, UTXOValueView, UTXO};
use crate::wallet::{
    movements_view, parse_wallets, pubkey_error_text, pubkey_hash_of, serialize_wallets,
    wallets_view, Movement, MovementView, Wallet, WalletView,
};

verus! {

/// The transactions of a block, each with the hash that names it.
pub open spec fn named_transactions(transactions: Seq<TransactionView>) -> Seq<
    (Seq<u8>, TransactionView),
> {
    transactions.map_values(|transaction: TransactionView| (transaction.hash(), transaction))
}

/// Why the wallets cannot take a block.
pub enum UpdateFailure {
    /// The public key of a wallet cannot be read.
    KeyUnreadable,
    /// A change of funds does not fit in a movement.
    ValueOutOfRange,
}

/// Whether `error` is the error that reports `failure`.
pub open spec fn reports(error: CustomError, failure: UpdateFailure) -> bool {
    match failure {
        UpdateFailure::KeyUnreadable => rejected_with(error, pubkey_error_text()),
        UpdateFailure::ValueOutOfRange => error == CustomError::ValueOutOfRange,
    }
}

/// The movements that a block makes in the funds of one wallet, given the
/// unspent outputs before the block: one for each transaction of the block
/// that changes them, each naming the block.
pub open spec fn wallet_movements(
    wallet: WalletView,
    transactions: Seq<TransactionView>,
    entries: Seq<(OutPointView, UTXOValueView)>,
    block_hash: Seq<u8>,
) -> Result<Seq<MovementView>, UpdateFailure> {
    match pubkey_hash_of(wallet.pubkey) {
        None => Err(UpdateFailure::KeyUnreadable),
        Some(key_hash) => match movements_of(
            named_transactions(transactions),
            entries,
            key_hash,
            Some(block_hash),
        ) {
            None => Err(UpdateFailure::ValueOutOfRange),
            Some(movements) => Ok(movements),
        },
    }
}

/// The wallets after a block, each with the movements that the block makes
/// in its funds added to its history; the failure of the first wallet that
/// cannot take the block, when there is one.
pub open spec fn wallets_after(
    wallets: Seq<WalletView>,
    transactions: Seq<TransactionView>,
    entries: Seq<(OutPointView, UTXOValueView)>,
    block_hash: Seq<u8>,
) -> Result<Seq<WalletView>, UpdateFailure>
    decreases wallets.len(),
{
    if wallets.len() == 0 {
        Ok(Seq::empty())
    } else {
        match wallets_after(wallets.drop_last(), transactions, entries, block_hash) {
            Err(failure) => Err(failure),
            Ok(front) => match wallet_movements(wallets.last(), transactions, entries, block_hash) {
                Err(failure) => Err(failure),
                Ok(movements) => Ok(
                    front.push(
                        WalletView {
                            history: wallets.last().history + movements,
                            ..wallets.last()
                        },
                    ),
                ),
            },
        }
    }
}

/// Where the first wallet with this public key stands, if there is one.
pub open spec fn wallet_position(wallets: Seq<WalletView>, pubkey: Seq<char>) -> Option<int>
    decreases wallets.len(),
{
    if wallets.len() == 0 {
        None
    } else {
        match wallet_position(wallets.drop_last(), pubkey) {
            Some(i) => Some(i),
            None => if wallets.last().pubkey == pubkey {
                Some(wallets.len() - 1)
            } else {
                None
            },
        }
    }
}

/// The wallets of the node and the choice of the one that is active.
pub struct WalletsStore {
    wallets: Vec<Wallet>,
    active: Option<usize>,
}

impl View for WalletsStore {
    type V = Seq<WalletView>;

    closed spec fn view(&self) -> Seq<WalletView> {
        wallets_view(self.wallets@)
    }
}

impl WalletsStore {
    /// The active wallet, when there is one, is one of the wallets.
    #[verifier::type_invariant]
    pub closed spec fn wf(&self) -> bool {
        self.active matches Some(i) ==> i < self.wallets@.len()
    }

    /// The place of the active wallet, when one is active.
    pub closed spec fn active(&self) -> Option<int> {
        match self.active {
            Some(i) => Some(i as int),
            None => None,
        }
    }

    /// No wallet, and none active.
    pub fn new() -> (store: Self)
        ensures
            store@ == Seq::<WalletView>::empty(),
            store.active() is None,
            store.wf(),
    {
        let store = Self { wallets: Vec::new(), active: None };
        assert(wallets_view(store.wallets@) =~= Seq::empty());
        store
    }

    /// The wallets that the bytes of a wallets file hold, none of them
    /// active; no wallet when the bytes cannot be read.
    pub fn restore(buffer: Vec<u8>) -> (store: Self)
        ensures
            match parse_wallets(buffer@) {
                Parsed::Done { value, used } => store@ == value,
                _ => store@.len() == 0,
            },
            store.active() is None,
            store.wf(),
    {
        Self { wallets: Wallet::restore_wallets(buffer), active: None }
    }

    /// The bytes of the wallets file for the wallets of the store.
    pub fn save(&self) -> (buffer: Vec<u8>)
        ensures
            buffer@ == serialize_wallets(self@),
    {
        Wallet::save_wallets(self.wallets.as_slice())
    }

    /// The active wallet is one of the wallets.
    pub proof fn lemma_active_in_range(&self)
        requires
            self.wf(),
        ensures
            self.active() matches Some(i) ==> 0 <= i < self@.len(),
    {
    }

    /// All the wallets, in the order in which they came.
    pub fn get_all(&self) -> (wallets: &Vec<Wallet>)
        ensures
            wallets_view(wallets@) == self@,
    {
        &self.wallets
    }

    /// Adds a wallet at the end. The active wallet stays the one it was.
    pub fn append(&mut self, new_wallet: Wallet)
        ensures
            final(self)@ == old(self)@.push(new_wallet@),
            final(self).active() == old(self).active(),
            final(self).wf(),
    {
        proof {
            use_type_invariant(&*self);
        }
        let active = self.active;
        let mut wallets: Vec<Wallet> = Vec::new();
        self.active = None;
        core::mem::swap(&mut self.wallets, &mut wallets);
        wallets.push(new_wallet);
        assert(wallets_view(wallets@) =~= old(self)@.push(new_wallet@));
        self.wallets = wallets;
        self.active = active;
    }

    /// The active wallet, when one is active.
    pub fn get_active(&self) -> (wallet: Option<&Wallet>)
        ensures
            match self.active() {
                Some(i) => wallet is Some && wallet->Some_0@ == self@[i],
                None => wallet is None,
            },
    {
        proof {
            use_type_invariant(self);
        }
        match self.active {
            Some(i) => Some(&self.wallets[i]),
            None => None,
        }
    }

    /// Makes the first wallet with the public key `public_key` the active
    /// one. Fails, and leaves the choice as it was, when no wallet has that
    /// key.
    pub fn set_active(&mut self, public_key: &String) -> (r: Result<(), CustomError>)
        ensures
            final(self)@ == old(self)@,
            match wallet_position(old(self)@, public_key@) {
                Some(i) => r is Ok && final(self).active() == Some(i),
                None => r is Err && r->Err_0 == CustomError::WalletNotFound && final(self).active()
                    == old(self).active(),
            },
            final(self).wf(),
    {
        proof {
            use_type_invariant(&*self);
        }
        let ghost wallets = self@;
        let mut found: Option<usize> = None;
        let mut i: usize = 0;
        while i < self.wallets.len() && found.is_none()
            invariant
                i <= self.wallets@.len(),
                wallets == wallets_view(self.wallets@),
                found is None ==> wallet_position(wallets.take(i as int), public_key@) is None,
                found matches Some(k) ==> k < self.wallets@.len() && wallet_position(
                    wallets.take(i as int),
                    public_key@,
                ) == Some(k as int),
            decreases
                    self.wallets@.len() - i + if found is None {
                        1int
                    } else {
                        0int
                    },
        {
            proof {
                let next = wallets.take(i + 1);
                assert(next.drop_last() =~= wallets.take(i as int));
                assert(next.last() == wallets[i as int]);
            }
            if self.wallets[i].pubkey == *public_key {
                found = Some(i);
            }
            i = i + 1;
        }
        proof {
            lemma_position_extends(wallets, public_key@, i as int);
        }
        match found {
            Some(k) => {
                self.active = Some(k);
                Ok(())
            },
            None => Err(CustomError::WalletNotFound),
        }
    }

    /// Adds to the history of each wallet the movements that `block` makes
    /// in its funds, given the unspent outputs `utxo` before the block.
    /// Says whether any history grew. When a wallet cannot take the block,
    /// no wallet changes and an error says why.
    pub fn update(&mut self, block: &Block, utxo: &UTXO) -> (r: Result<bool, CustomError>)
        ensures
            match wallets_after(old(self)@, block@.transactions, utxo@, block@.header.hash) {
                Ok(wallets) => r is Ok && final(self)@ == wallets && r->Ok_0 == (wallets
                    != old(self)@),
                Err(failure) => r is Err && reports(r->Err_0, failure) && final(self)@ == old(self)@,
            },
            final(self).active() == old(self).active(),
            final(self).wf(),
    {
        proof {
            use_type_invariant(&*self);
        }
        let ghost before = self@;
        let ghost transactions = block@.transactions;
        let ghost entries = utxo@;
        let ghost block_hash = block@.header.hash;
        let mut hashes: Vec<Vec<u8>> = Vec::new();
        let mut t: usize = 0;
        while t < block.transactions.len()
            invariant
                t <= block.transactions@.len(),
                transactions == transactions_view(block.transactions@),
                hashes@.len() == t,
                forall|j: int| 0 <= j < t ==> (#[trigger] hashes@[j])@ == transactions[j].hash(),
            decreases block.transactions@.len() - t,
        {
            let hash = block.transactions[t].hash();
            hashes.push(hash);
            t = t + 1;
        }
        let mut updated: Vec<Wallet> = Vec::new();
        let mut changed = false;
        let mut i: usize = 0;
        assert(wallets_view(updated@) =~= Seq::empty());
        assert(before.take(0) =~= Seq::empty());
        while i < self.wallets.len()
            invariant
                i <= self.wallets@.len(),
                before == wallets_view(self.wallets@),
                transactions == transactions_view(block.transactions@),
                entries == utxo@,
                block_hash == block.header.hash@,
                hashes@.len() == transactions.len(),
                forall|j: int|
                    0 <= j < transactions.len() ==> (#[trigger] hashes@[j])@
                        == transactions[j].hash(),
                wallets_after(before.take(i as int), transactions, entries, block_hash) == Ok::<
                    Seq<WalletView>,
                    UpdateFailure,
                >(wallets_view(updated@)),
                updated@.len() == i,
                changed == (wallets_view(updated@) != before.take(i as int)),
                self.wf(),
                self.active() == old(self).active(),
                before == old(self)@,
            decreases self.wallets@.len() - i,
        {
            proof {
                let next = before.take(i + 1);
                assert(next.drop_last() =~= before.take(i as int));
                assert(next.last() == before[i as int]);
            }
            let wallet = &self.wallets[i];
            let key_hash = match wallet.get_pubkey_hash() {
                Ok(hash) => hash,
                Err(e) => {
                    proof {
                        lemma_wallets_fail(before, transactions, entries, block_hash, i + 1);
                    }
                    return Err(e);
                },
            };
            proof {
                assert(Seq::new(
                    hashes@.len(),
                    |j: int| (hashes@[j]@, transactions_view(block.transactions@)[j]),
                ) =~= named_transactions(transactions));
            }
            let movements = match block_movements(block, &hashes, &key_hash, utxo) {
                Ok(movements) => movements,
                Err(e) => {
                    proof {
                        lemma_wallets_fail(before, transactions, entries, block_hash, i + 1);
                    }
                    return Err(e);
                },
            };
            let mut copy = wallet.duplicate();
            let ghost grown = movements_view(movements@);
            if movements.len() > 0 {
                changed = true;
            }
            let mut movements = movements;
            copy.history.append(&mut movements);
            proof {
                assert(movements_view(copy.history@) =~= before[i as int].history + grown);
                assert(wallets_view(updated@.push(copy)) =~= wallets_view(updated@).push(copy@));
                let front = wallets_view(updated@);
                let next = front.push(copy@);
                if grown.len() > 0 {
                    assert(next[i as int].history.len() != before.take(i + 1)[i as int].history.len());
                } else {
                    assert(before[i as int].history + grown =~= before[i as int].history);
                    if front == before.take(i as int) {
                        assert(next =~= before.take(i + 1));
                    } else {
                        assert(next.drop_last() =~= front);
                        assert(before.take(i + 1).drop_last() =~= before.take(i as int));
                    }
                }
                if grown.len() > 0 && changed {
                } else if front != before.take(i as int) {
                    assert(next.drop_last() =~= front);
                    assert(before.take(i + 1).drop_last() =~= before.take(i as int));
                }
            }
            updated.push(copy);
            i = i + 1;
        }
        assert(before.take(i as int) =~= before);
        let active = self.active;
        self.active = None;
        self.wallets = updated;
        self.active = active;
        Ok(changed)
    }
}

/// The first wallet with a key among the first `n` wallets is the first
/// among all of them, when all of them have been looked at or one has been
/// found.
pub proof fn lemma_position_extends(wallets: Seq<WalletView>, pubkey: Seq<char>, n: int)
    requires
        0 <= n <= wallets.len(),
        n == wallets.len() || wallet_position(wallets.take(n), pubkey) is Some,
    ensures
        wallet_position(wallets, pubkey) == wallet_position(wallets.take(n), pubkey),
    decreases wallets.len(),
{
    if n == wallets.len() {
        assert(wallets.take(n) =~= wallets);
    } else {
        assert(wallets.drop_last().take(n) =~= wallets.take(n));
        lemma_position_extends(wallets.drop_last(), pubkey, n);
    }
}

/// Once a wallet cannot take a block, no longer list of wallets can, and
/// the failure is that of the first such wallet.
pub proof fn lemma_wallets_fail(
    wallets: Seq<WalletView>,
    transactions: Seq<TransactionView>,
    entries: Seq<(OutPointView, UTXOValueView)>,
    block_hash: Seq<u8>,
    failed: int,
)
    requires
        0 <= failed <= wallets.len(),
        wallets_after(wallets.take(failed), transactions, entries, block_hash) is Err,
    ensures
        wallets_after(wallets, transactions, entries, block_hash) == wallets_after(
            wallets.take(failed),
            transactions,
            entries,
            block_hash,
        ),
    decreases wallets.len(),
{
    if failed < wallets.len() {
        assert(wallets.drop_last().take(failed) =~= wallets.take(failed));
        lemma_wallets_fail(wallets.drop_last(), transactions, entries, block_hash, failed);
    } else {
        assert(wallets.take(failed) =~= wallets);
    }
}

/// The movements that the transactions of `block`, named by `hashes`, make
/// in the funds of the key with hash `key_hash`, each naming the block.
pub fn block_movements(block: &Block, hashes: &Vec<Vec<u8>>, key_hash: &Vec<u8>, utxo: &UTXO) -> (r:
    Result<Vec<Movement>, CustomError>)
    requires
        hashes@.len() == block.transactions@.len(),
    ensures
        match movements_of(
            Seq::new(
                hashes@.len(),
                |j: int| (hashes@[j]@, transactions_view(block.transactions@)[j]),
            ),
            utxo@,
            key_hash@,
            Some(block.header.hash@),
        ) {
            Some(movements) => r is Ok && movements_view(r->Ok_0@) == movements,
            None => r is Err && r->Err_0 == CustomError::ValueOutOfRange,
        },
{
    let ghost items = Seq::new(
        hashes@.len(),
        |j: int| (hashes@[j]@, transactions_view(block.transactions@)[j]),
    );
    let mut movements: Vec<Movement> = Vec::new();
    let mut i: usize = 0;
    assert(movements_view(movements@) =~= Seq::empty());
    while i < block.transactions.len()
        invariant
            i <= block.transactions@.len(),
            hashes@.len() == block.transactions@.len(),
            items == Seq::new(
                hashes@.len(),
                |j: int| (hashes@[j]@, transactions_view(block.transactions@)[j]),
            ),
            movements_of(items.take(i as int), utxo@, key_hash@, Some(block.header.hash@)) == Some(
                movements_view(movements@),
            ),
        decreases block.transactions@.len() - i,
    {
        proof {
            let next = items.take(i + 1);
            assert(next.drop_last() =~= items.take(i as int));
            assert(next.last() == items[i as int]);
        }
        match block.transactions[i].movement_with_hash(
            copy_bytes(&hashes[i]),
            Some(copy_bytes(&block.header.hash)),
            key_hash,
            utxo,
        ) {
            Ok(Some(movement)) => {
                proof {
                    assert(movements_view(movements@.push(movement)) =~= movements_view(
                        movements@,
                    ).push(movement@));
                }
                movements.push(movement);
            },
            Ok(None) => {},
            Err(e) => {
                proof {
                    lemma_movements_fail(
                        items,
                        utxo@,
                        key_hash@,
                        Some(block.header.hash@),
                        i + 1,
                    );
                }
                return Err(e);
            },
        }
        i = i + 1;
    }
    assert(items.take(i as int) =~= items);
    Ok(movements)
}

} // verus!
