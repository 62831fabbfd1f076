use vstd::prelude::*;
use crate::error::CustomError;
use crate::hashing::{bytes_equal, copy_bytes};
use crate::messages::block::{transactions_view, Block, BlockView};
use crate::messages::transaction::{Transaction, TransactionView};
use crate::parser::rejected_with;
use crate::states::pending_blocks_state::hashes_view;
use crate::states::utxo_state::{OutPointView, UTXOValueView, UTXO};
use crate::wallet::{movements_view, pubkey_error_text, pubkey_hash_of, Movement, MovementView, Wallet};

verus! {

/// The pending transactions as plain values: each with the hash that
/// names it, in the order in which they came.
pub open spec fn pool_view(pool: Seq<(Vec<u8>, Transaction)>) -> Seq<(Seq<u8>, TransactionView)> {
    pool.map_values(|entry: (Vec<u8>, Transaction)| (entry.0@, entry.1@))
}

/// Where the transaction with this hash stands in the pool, if it does.
pub open spec fn pool_position(pool: Seq<(Seq<u8>, TransactionView)>, hash: Seq<u8>) -> Option<int>
    decreases pool.len(),
{
    if pool.len() == 0 {
        None
    } else if pool.last().0 == hash {
        Some(pool.len() - 1)
    } else {
        pool_position(pool.drop_last(), hash)
    }
}

/// Whether the pool holds a transaction with this hash.
pub open spec fn pool_contains(pool: Seq<(Seq<u8>, TransactionView)>, hash: Seq<u8>) -> bool {
    pool_position(pool, hash) is Some
}

/// No hash occurs twice.
pub open spec fn distinct_pool(pool: Seq<(Seq<u8>, TransactionView)>) -> bool {
    forall|i: int, j: int|
        0 <= i < pool.len() && 0 <= j < pool.len() && i != j ==> (#[trigger] pool[i]).0 != (
        #[trigger] pool[j]).0
}

/// The pool after a transaction is offered under its hash: one more entry
/// at the end, unless the pool holds the hash already.
pub open spec fn pool_with(
    pool: Seq<(Seq<u8>, TransactionView)>,
    hash: Seq<u8>,
    transaction: TransactionView,
) -> Seq<(Seq<u8>, TransactionView)> {
    if pool_contains(pool, hash) {
        pool
    } else {
        pool.push((hash, transaction))
    }
}

/// Whether `hash` is one of `hashes`.
pub open spec fn is_one_of(hashes: Seq<Seq<u8>>, hash: Seq<u8>) -> bool {
    exists|i: int| 0 <= i < hashes.len() && hashes[i] == hash
}

/// The pool without the transactions whose hash is one of `hashes`.
pub open spec fn pool_without(pool: Seq<(Seq<u8>, TransactionView)>, hashes: Seq<Seq<u8>>) -> Seq<
    (Seq<u8>, TransactionView),
>
    decreases pool.len(),
{
    if pool.len() == 0 {
        Seq::empty()
    } else if is_one_of(hashes, pool.last().0) {
        pool_without(pool.drop_last(), hashes)
    } else {
        pool_without(pool.drop_last(), hashes).push(pool.last())
    }
}

/// The hashes of the transactions, in their order.
pub open spec fn transaction_hashes(transactions: Seq<TransactionView>) -> Seq<Seq<u8>> {
    transactions.map_values(|transaction: TransactionView| transaction.hash())
}

/// The movements that the transactions `items`, each named by its hash,
/// make in the funds of the key with hash `key_hash`, given the unspent
/// outputs `entries`: one for each transaction that changes the funds.
/// Nothing when one of the changes does not fit in a movement.
pub open spec fn movements_of(
    items: Seq<(Seq<u8>, TransactionView)>,
    entries: Seq<(OutPointView, UTXOValueView)>,
    key_hash: Seq<u8>,
    block_hash: Option<Seq<u8>>,
) -> Option<Seq<MovementView>>
    decreases items.len(),
{
    if items.len() == 0 {
        Some(Seq::empty())
    } else {
        match movements_of(items.drop_last(), entries, key_hash, block_hash) {
            None => None,
            Some(movements) => {
                let delta = items.last().1.movement_value(entries, key_hash);
                if delta == 0 {
                    Some(movements)
                } else if i64::MIN <= delta <= i64::MAX {
                    Some(
                        movements.push(
                            MovementView {
                                tx_hash: items.last().0,
                                value: delta as i64,
                                block_hash,
                            },
                        ),
                    )
                } else {
                    None
                }
            },
        }
    }
}

/// `pool_position` finds the hash where it stands, and finds nothing only
/// where the hash stands nowhere.
pub proof fn lemma_pool_position(pool: Seq<(Seq<u8>, TransactionView)>, hash: Seq<u8>)
    ensures
        match pool_position(pool, hash) {
            Some(i) => 0 <= i < pool.len() && pool[i].0 == hash,
            None => forall|i: int| 0 <= i < pool.len() ==> (#[trigger] pool[i]).0 != hash,
        },
    decreases pool.len(),
{
    if pool.len() > 0 && pool.last().0 != hash {
        lemma_pool_position(pool.drop_last(), hash);
        assert forall|i: int| 0 <= i < pool.len() && pool_position(pool, hash) is None implies (
        #[trigger] pool[i]).0 != hash by {
            if i < pool.len() - 1 {
                assert(pool.drop_last()[i] == pool[i]);
            }
        }
    }
}

/// What is left of a pool holds no hash that was to leave, keeps every
/// other entry, and holds no hash twice when the pool held none twice.
pub proof fn lemma_pool_without(pool: Seq<(Seq<u8>, TransactionView)>, hashes: Seq<Seq<u8>>)
    ensures
        forall|i: int|
            0 <= i < pool_without(pool, hashes).len() ==> !is_one_of(
                hashes,
                (#[trigger] pool_without(pool, hashes)[i]).0,
            ) && exists|j: int| 0 <= j < pool.len() && pool[j] == pool_without(pool, hashes)[i],
        forall|hash: Seq<u8>|
            is_one_of(hashes, hash) ==> !#[trigger] pool_contains(pool_without(pool, hashes), hash),
        forall|hash: Seq<u8>|
            !is_one_of(hashes, hash) ==> #[trigger] pool_contains(pool_without(pool, hashes), hash)
                == pool_contains(pool, hash),
        distinct_pool(pool) ==> distinct_pool(pool_without(pool, hashes)),
    decreases pool.len(),
{
    let left = pool_without(pool, hashes);
    if pool.len() > 0 {
        let front = pool.drop_last();
        let front_left = pool_without(front, hashes);
        lemma_pool_without(front, hashes);
        assert forall|i: int| 0 <= i < left.len() implies !is_one_of(hashes, (#[trigger] left[i]).0)
            && exists|j: int| 0 <= j < pool.len() && pool[j] == left[i] by {
            if i < front_left.len() {
                assert(left[i] == front_left[i]);
                let j = choose|j: int| 0 <= j < front.len() && front[j] == front_left[i];
                assert(pool[j] == left[i]);
            } else {
                assert(pool[pool.len() - 1] == left[i]);
            }
        }
        assert forall|hash: Seq<u8>| is_one_of(hashes, hash) implies !#[trigger] pool_contains(
            left,
            hash,
        ) by {
            lemma_pool_position(left, hash);
        }
        assert forall|hash: Seq<u8>| !is_one_of(hashes, hash) implies #[trigger] pool_contains(
            left,
            hash,
        ) == pool_contains(pool, hash) by {
            assert(pool_contains(front_left, hash) == pool_contains(front, hash));
            if !is_one_of(hashes, pool.last().0) {
                assert(left.drop_last() =~= front_left);
            }
        }
        if distinct_pool(pool) {
            assert(distinct_pool(front)) by {
                assert forall|i: int, j: int|
                    0 <= i < front.len() && 0 <= j < front.len() && i != j implies (
                #[trigger] front[i]).0 != (#[trigger] front[j]).0 by {
                    assert(front[i] == pool[i]);
                    assert(front[j] == pool[j]);
                }
            }
            if !is_one_of(hashes, pool.last().0) {
                assert forall|i: int, j: int|
                    0 <= i < left.len() && 0 <= j < left.len() && i != j implies (
                #[trigger] left[i]).0 != (#[trigger] left[j]).0 by {
                    let last = left.len() - 1;
                    if i < last {
                        assert(left[i] == front_left[i]);
                    }
                    if j < last {
                        assert(left[j] == front_left[j]);
                    }
                    if i == last && j < last {
                        let k = choose|k: int| 0 <= k < front.len() && front[k] == front_left[j];
                        assert(pool[k] == left[j]);
                        assert(pool[pool.len() - 1] == left[i]);
                    }
                    if j == last && i < last {
                        let k = choose|k: int| 0 <= k < front.len() && front[k] == front_left[i];
                        assert(pool[k] == left[i]);
                        assert(pool[pool.len() - 1] == left[j]);
                    }
                }
            }
        }
    }
}

/// Offering a transaction twice adds it once: the second offer finds it
/// and changes nothing.
pub proof fn lemma_offer_twice(
    pool: Seq<(Seq<u8>, TransactionView)>,
    hash: Seq<u8>,
    transaction: TransactionView,
)
    ensures
        pool_contains(pool_with(pool, hash, transaction), hash),
        pool_with(pool_with(pool, hash, transaction), hash, transaction) == pool_with(
            pool,
            hash,
            transaction,
        ),
{
    let once = pool_with(pool, hash, transaction);
    if !pool_contains(pool, hash) {
        assert(once.drop_last() =~= pool);
    }
}

/// A pending transaction whose hash is in a block is gone from the pool
/// once the block has been seen.
pub proof fn lemma_confirmed_leaves(
    pool: Seq<(Seq<u8>, TransactionView)>,
    block: BlockView,
    hash: Seq<u8>,
)
    requires
        is_one_of(transaction_hashes(block.transactions), hash),
    ensures
        !pool_contains(pool_without(pool, transaction_hashes(block.transactions)), hash),
{
    lemma_pool_without(pool, transaction_hashes(block.transactions));
}

/// The transactions that the node knows and that no block has confirmed
/// yet, each under the hash that names it. No hash occurs twice.
pub struct PendingTxPool {
    txs: Vec<(Vec<u8>, Transaction)>,
}

impl View for PendingTxPool {
    type V = Seq<(Seq<u8>, TransactionView)>;

    closed spec fn view(&self) -> Seq<(Seq<u8>, TransactionView)> {
        pool_view(self.txs@)
    }
}

impl PendingTxPool {
    /// No hash occurs twice in the pool.
    #[verifier::type_invariant]
    pub closed spec fn wf(&self) -> bool {
        distinct_pool(pool_view(self.txs@))
    }

    /// An empty pool.
    pub fn new() -> (pool: Self)
        ensures
            pool@ == Seq::<(Seq<u8>, TransactionView)>::empty(),
            pool.wf(),
    {
        let pool = Self { txs: Vec::new() };
        assert(pool_view(pool.txs@) =~= Seq::empty());
        pool
    }

    /// No hash occurs twice in the pool.
    pub proof fn lemma_distinct(&self)
        requires
            self.wf(),
        ensures
            distinct_pool(self@),
    {
    }

    /// The number of pending transactions.
    pub fn len(&self) -> (n: usize)
        ensures
            n == self@.len(),
    {
        self.txs.len()
    }

    /// Where the transaction with this hash stands, if it does.
    fn find(&self, hash: &Vec<u8>) -> (found: Option<usize>)
        ensures
            match found {
                Some(k) => k < self.txs@.len() && pool_position(self@, hash@) == Some(k as int),
                None => pool_position(self@, hash@) is None,
            },
    {
        let ghost pool = self@;
        let mut i: usize = self.txs.len();
        assert(pool.take(i as int) =~= pool);
        while i > 0
            invariant
                i <= self.txs@.len(),
                pool == pool_view(self.txs@),
                pool_position(pool, hash@) == pool_position(pool.take(i as int), hash@),
            decreases i,
        {
            proof {
                let front = pool.take(i as int);
                assert(front.drop_last() =~= pool.take(i - 1));
                assert(front.last() == pool[i - 1]);
            }
            i = i - 1;
            if bytes_equal(self.txs[i].0.as_slice(), hash.as_slice()) {
                return Some(i);
            }
        }
        None
    }

    /// Offers a transaction. It enters the pool unless the pool holds a
    /// transaction with its hash already. Says whether it entered.
    pub fn append(&mut self, transaction: Transaction) -> (added: bool)
        ensures
            added == !pool_contains(old(self)@, transaction@.hash()),
            final(self)@ == pool_with(old(self)@, transaction@.hash(), transaction@),
            final(self).wf(),
    {
        let hash = transaction.hash();
        self.append_with_hash(hash, transaction)
    }

    /// Offers a transaction under the hash `hash`. It enters the pool
    /// unless the pool holds that hash already. Says whether it entered.
    pub fn append_with_hash(&mut self, hash: Vec<u8>, transaction: Transaction) -> (added: bool)
        ensures
            added == !pool_contains(old(self)@, hash@),
            final(self)@ == pool_with(old(self)@, hash@, transaction@),
            final(self).wf(),
    {
        proof {
            use_type_invariant(&*self);
            lemma_pool_position(self@, hash@);
        }
        if self.find(&hash).is_some() {
            return false;
        }
        let mut txs: Vec<(Vec<u8>, Transaction)> = Vec::new();
        assert(pool_view(txs@) =~= Seq::empty());
        core::mem::swap(&mut self.txs, &mut txs);
        txs.push((hash, transaction));
        proof {
            let before = old(self)@;
            let after = pool_view(txs@);
            assert(after =~= before.push((hash@, transaction@)));
            assert forall|i: int, j: int|
                0 <= i < after.len() && 0 <= j < after.len() && i != j implies (#[trigger] after[i]).0
                != (#[trigger] after[j]).0 by {
                if i < before.len() {
                    assert(after[i] == before[i]);
                }
                if j < before.len() {
                    assert(after[j] == before[j]);
                }
            }
        }
        self.txs = txs;
        true
    }

    /// The pending transaction with this hash, if the pool holds it.
    pub fn get_pending_tx(&self, tx_hash: &Vec<u8>) -> (transaction: Option<&Transaction>)
        ensures
            match pool_position(self@, tx_hash@) {
                Some(i) => transaction is Some && transaction->Some_0@ == self@[i].1,
                None => transaction is None,
            },
    {
        match self.find(tx_hash) {
            Some(i) => Some(&self.txs[i].1),
            None => None,
        }
    }

    /// Drops every pending transaction whose hash is that of a transaction
    /// of `block`.
    pub fn update_on_block(&mut self, block: &Block)
        ensures
            final(self)@ == pool_without(old(self)@, transaction_hashes(block@.transactions)),
            final(self).wf(),
    {
        let ghost transactions = block@.transactions;
        let mut hashes: Vec<Vec<u8>> = Vec::new();
        let mut i: usize = 0;
        assert(hashes_view(hashes@) =~= transaction_hashes(transactions.take(0)));
        while i < block.transactions.len()
            invariant
                i <= block.transactions@.len(),
                transactions == transactions_view(block.transactions@),
                hashes_view(hashes@) == transaction_hashes(transactions.take(i as int)),
            decreases block.transactions@.len() - i,
        {
            let hash = block.transactions[i].hash();
            proof {
                assert(hashes_view(hashes@.push(hash)) =~= hashes_view(hashes@).push(hash@));
                assert(transaction_hashes(transactions.take(i + 1)) =~= transaction_hashes(
                    transactions.take(i as int),
                ).push(transactions[i as int].hash()));
            }
            hashes.push(hash);
            i = i + 1;
        }
        assert(transactions.take(i as int) =~= transactions);
        self.remove_confirmed(&hashes);
    }

    /// Drops every pending transaction whose hash is one of `hashes`.
    pub fn remove_confirmed(&mut self, hashes: &Vec<Vec<u8>>)
        ensures
            final(self)@ == pool_without(old(self)@, hashes_view(hashes@)),
            final(self).wf(),
    {
        proof {
            use_type_invariant(&*self);
            lemma_pool_without(self@, hashes_view(hashes@));
        }
        let ghost before = self@;
        let ghost gone = hashes_view(hashes@);
        let mut txs: Vec<(Vec<u8>, Transaction)> = Vec::new();
        assert(pool_view(txs@) =~= Seq::empty());
        core::mem::swap(&mut self.txs, &mut txs);
        let mut kept: Vec<(Vec<u8>, Transaction)> = Vec::new();
        let mut i: usize = 0;
        assert(pool_view(kept@) =~= pool_without(before.take(0), gone));
        while i < txs.len()
            invariant
                i <= txs@.len(),
                before == pool_view(txs@),
                gone == hashes_view(hashes@),
                pool_view(kept@) == pool_without(before.take(i as int), gone),
            decreases txs@.len() - i,
        {
            proof {
                let next = before.take(i + 1);
                assert(next.drop_last() =~= before.take(i as int));
                assert(next.last() == before[i as int]);
            }
            if !contains_hash(hashes, &txs[i].0) {
                let copy = (copy_bytes(&txs[i].0), txs[i].1.duplicate());
                proof {
                    assert(pool_view(kept@.push(copy)) =~= pool_view(kept@).push((copy.0@, copy.1@)));
                }
                kept.push(copy);
            }
            i = i + 1;
        }
        assert(before.take(i as int) =~= before);
        self.txs = kept;
    }

    /// The movements that the pending transactions make in the funds of
    /// `wallet`, given the unspent outputs `utxo`: one for each pending
    /// transaction that changes them. They name no block. Fails when the
    /// key of the wallet cannot be read or a change does not fit in a
    /// movement.
    pub fn movements_from_wallet(&self, wallet: &Wallet, utxo: &UTXO) -> (r: Result<
        Vec<Movement>,
        CustomError,
    >)
        ensures
            match pubkey_hash_of(wallet.pubkey@) {
                None => r is Err && rejected_with(r->Err_0, pubkey_error_text()),
                Some(hash) => match movements_of(self@, utxo@, hash, None) {
                    Some(movements) => r is Ok && movements_view(r->Ok_0@) == movements,
                    None => r is Err && r->Err_0 == CustomError::ValueOutOfRange,
                },
            },
    {
        match wallet.get_pubkey_hash() {
            Ok(hash) => self.movements_of_key(&hash, utxo),
            Err(e) => Err(e),
        }
    }

    /// The movements that the pending transactions make in the funds of
    /// the key with hash `key_hash`.
    pub fn movements_of_key(&self, key_hash: &Vec<u8>, utxo: &UTXO) -> (r: Result<
        Vec<Movement>,
        CustomError,
    >)
        ensures
            match movements_of(self@, utxo@, key_hash@, None) {
                Some(movements) => r is Ok && movements_view(r->Ok_0@) == movements,
                None => r is Err && r->Err_0 == CustomError::ValueOutOfRange,
            },
    {
        let ghost pool = self@;
        let mut movements: Vec<Movement> = Vec::new();
        let mut i: usize = 0;
        assert(movements_view(movements@) =~= Seq::empty());
        while i < self.txs.len()
            invariant
                i <= self.txs@.len(),
                pool == pool_view(self.txs@),
                movements_of(pool.take(i as int), utxo@, key_hash@, None) == Some(
                    movements_view(movements@),
                ),
            decreases self.txs@.len() - i,
        {
            proof {
                let next = pool.take(i + 1);
                assert(next.drop_last() =~= pool.take(i as int));
                assert(next.last() == pool[i as int]);
            }
            let entry = &self.txs[i];
            match entry.1.movement_with_hash(copy_bytes(&entry.0), None, key_hash, utxo) {
                Ok(Some(movement)) => {
                    proof {
                        assert(movements_view(movements@.push(movement)) =~= movements_view(
                            movements@,
                        ).push(movement@));
                    }
                    movements.push(movement);
                },
                Ok(None) => {},
                Err(e) => {
                    proof {
                        lemma_movements_fail(pool, utxo@, key_hash@, None, i + 1);
                    }
                    return Err(e);
                },
            }
            i = i + 1;
        }
        assert(pool.take(i as int) =~= pool);
        Ok(movements)
    }
}

/// Once a change does not fit in a movement, no longer list of
/// transactions has movements.
pub proof fn lemma_movements_fail(
    items: Seq<(Seq<u8>, TransactionView)>,
    entries: Seq<(OutPointView, UTXOValueView)>,
    key_hash: Seq<u8>,
    block_hash: Option<Seq<u8>>,
    failed: int,
)
    requires
        0 <= failed <= items.len(),
        movements_of(items.take(failed), entries, key_hash, block_hash) is None,
    ensures
        movements_of(items, entries, key_hash, block_hash) is None,
    decreases items.len(),
{
    if failed < items.len() {
        assert(items.drop_last().take(failed) =~= items.take(failed));
        lemma_movements_fail(items.drop_last(), entries, key_hash, block_hash, failed);
    } else {
        assert(items.take(failed) =~= items);
    }
}

/// Whether `hash` is one of `hashes`.
pub fn contains_hash(hashes: &Vec<Vec<u8>>, hash: &Vec<u8>) -> (found: bool)
    ensures
        found == is_one_of(hashes_view(hashes@), hash@),
{
    let ghost items = hashes_view(hashes@);
    let mut i: usize = 0;
    while i < hashes.len()
        invariant
            i <= hashes@.len(),
            items == hashes_view(hashes@),
            forall|j: int| 0 <= j < i ==> items[j] != hash@,
        decreases hashes@.len() - i,
    {
        if bytes_equal(hashes[i].as_slice(), hash.as_slice()) {
            assert(items[i as int] == hash@);
            return true;
        }
        i = i + 1;
    }
    false
}

} // verus!
