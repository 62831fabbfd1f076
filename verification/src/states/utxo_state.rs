use vstd::prelude::*;
use crate::error::CustomError;
use crate::hashing::copy_bytes;
use crate::messages::block::{blocks_view, Block, BlockView};
use crate::messages::transaction::{
    inputs_view, outputs_view, Transaction, TransactionInputView, TransactionView,
};
use crate::parser::rejected_with;
use crate::wallet::{pubkey_error_text, pubkey_hash_of, Wallet};
pub use crate::structs::outpoint::{OutPoint, OutPointView};
use crate::structs::tx_output::{pays_to_key, TransactionOutput, TransactionOutputView};

verus! {

/// What the set of unspent outputs keeps for an outpoint: the output and
/// the hash of the block that holds it.
#[derive(Debug, Clone)]
pub struct UTXOValue {
    pub tx_out: TransactionOutput,
    pub block_hash: Vec<u8>,
}

/// An entry's value as plain values.
pub struct UTXOValueView {
    pub tx_out: TransactionOutputView,
    pub block_hash: Seq<u8>,
}

impl View for UTXOValue {
    type V = UTXOValueView;

    open spec fn view(&self) -> UTXOValueView {
        UTXOValueView { tx_out: self.tx_out@, block_hash: self.block_hash@ }
    }
}

impl UTXOValue {
    /// A copy of the value.
    pub fn duplicate(&self) -> (copy: UTXOValue)
        ensures
            copy@ == self@,
    {
        UTXOValue { tx_out: self.tx_out.duplicate(), block_hash: copy_bytes(&self.block_hash) }
    }
}

/// The entries of a set as plain values, in the order in which they came.
pub open spec fn entries_view(entries: Seq<(OutPoint, UTXOValue)>) -> Seq<
    (OutPointView, UTXOValueView),
> {
    entries.map_values(|entry: (OutPoint, UTXOValue)| (entry.0@, entry.1@))
}

/// Where `key` stands among `entries`, if it does.
pub open spec fn position(entries: Seq<(OutPointView, UTXOValueView)>, key: OutPointView) -> Option<
    int,
>
    decreases entries.len(),
{
    if entries.len() == 0 {
        None
    } else if entries.last().0 == key {
        Some(entries.len() - 1)
    } else {
        position(entries.drop_last(), key)
    }
}

/// No outpoint occurs twice.
pub open spec fn distinct_keys(entries: Seq<(OutPointView, UTXOValueView)>) -> bool {
    forall|i: int, j: int|
        0 <= i < entries.len() && 0 <= j < entries.len() && i != j ==> (#[trigger] entries[i]).0
            != (#[trigger] entries[j]).0
}

/// What is kept for `key`, if anything.
pub open spec fn lookup(entries: Seq<(OutPointView, UTXOValueView)>, key: OutPointView) -> Option<
    UTXOValueView,
> {
    match position(entries, key) {
        Some(i) => Some(entries[i].1),
        None => None,
    }
}

/// The entries after `value` is kept for `key`: in the place of what was
/// kept for it before, or, if nothing was, at the end.
pub open spec fn put(
    entries: Seq<(OutPointView, UTXOValueView)>,
    key: OutPointView,
    value: UTXOValueView,
) -> Seq<(OutPointView, UTXOValueView)> {
    match position(entries, key) {
        Some(i) => entries.update(i, (key, value)),
        None => entries.push((key, value)),
    }
}

/// The entries after what is kept for `key`, if anything, is dropped.
pub open spec fn without(entries: Seq<(OutPointView, UTXOValueView)>, key: OutPointView) -> Seq<
    (OutPointView, UTXOValueView),
> {
    match position(entries, key) {
        Some(i) => entries.remove(i),
        None => entries,
    }
}

/// The entries whose output pays to the key with hash `key_hash`, in
/// their order.
pub open spec fn owned_entries(entries: Seq<(OutPointView, UTXOValueView)>, key_hash: Seq<u8>) -> Seq<
    (OutPointView, UTXOValueView),
>
    decreases entries.len(),
{
    if entries.len() == 0 {
        Seq::empty()
    } else if pays_to_key(entries.last().1.tx_out.script_pubkey, key_hash) {
        owned_entries(entries.drop_last(), key_hash).push(entries.last())
    } else {
        owned_entries(entries.drop_last(), key_hash)
    }
}

/// The sum of the values of the entries.
pub open spec fn total_value(entries: Seq<(OutPointView, UTXOValueView)>) -> nat
    decreases entries.len(),
{
    if entries.len() == 0 {
        0
    } else {
        total_value(entries.drop_last()) + entries.last().1.tx_out.value as nat
    }
}

/// The sum of the values of the entries whose output pays to the key with
/// hash `key_hash`.
pub open spec fn owned_value(entries: Seq<(OutPointView, UTXOValueView)>, key_hash: Seq<u8>) -> nat {
    total_value(owned_entries(entries, key_hash))
}

/// The entries after every output that `inputs` spend is dropped.
pub open spec fn spend_inputs(
    entries: Seq<(OutPointView, UTXOValueView)>,
    inputs: Seq<TransactionInputView>,
) -> Seq<(OutPointView, UTXOValueView)>
    decreases inputs.len(),
{
    if inputs.len() == 0 {
        entries
    } else {
        without(spend_inputs(entries, inputs.drop_last()), inputs.last().previous_output)
    }
}

/// The entries after every one of `outputs` is kept under the hash of its
/// transaction and its index, with the block that holds it. An output
/// whose index does not fit in 32 bits has no outpoint and is not kept.
pub open spec fn add_outputs(
    entries: Seq<(OutPointView, UTXOValueView)>,
    outputs: Seq<TransactionOutputView>,
    tx_hash: Seq<u8>,
    block_hash: Seq<u8>,
) -> Seq<(OutPointView, UTXOValueView)>
    decreases outputs.len(),
{
    if outputs.len() == 0 {
        entries
    } else if outputs.len() - 1 > u32::MAX {
        add_outputs(entries, outputs.drop_last(), tx_hash, block_hash)
    } else {
        put(
            add_outputs(entries, outputs.drop_last(), tx_hash, block_hash),
            OutPointView { hash: tx_hash, index: (outputs.len() - 1) as u32 },
            UTXOValueView { tx_out: outputs.last(), block_hash },
        )
    }
}

/// The entries after one transaction: what its inputs spend is dropped,
/// then its outputs are kept.
pub open spec fn apply_transaction(
    entries: Seq<(OutPointView, UTXOValueView)>,
    transaction: TransactionView,
    tx_hash: Seq<u8>,
    block_hash: Seq<u8>,
) -> Seq<(OutPointView, UTXOValueView)> {
    add_outputs(spend_inputs(entries, transaction.inputs), transaction.outputs, tx_hash, block_hash)
}

/// The entries after the transactions of a block, each under its own hash,
/// in their order.
pub open spec fn apply_transactions(
    entries: Seq<(OutPointView, UTXOValueView)>,
    transactions: Seq<TransactionView>,
    block_hash: Seq<u8>,
) -> Seq<(OutPointView, UTXOValueView)>
    decreases transactions.len(),
{
    if transactions.len() == 0 {
        entries
    } else {
        apply_transaction(
            apply_transactions(entries, transactions.drop_last(), block_hash),
            transactions.last(),
            transactions.last().hash(),
            block_hash,
        )
    }
}

/// The entries after one block.
pub open spec fn apply_block(entries: Seq<(OutPointView, UTXOValueView)>, block: BlockView) -> Seq<
    (OutPointView, UTXOValueView),
> {
    apply_transactions(entries, block.transactions, block.header.hash)
}

/// The entries after the blocks, in their order.
pub open spec fn apply_blocks(entries: Seq<(OutPointView, UTXOValueView)>, blocks: Seq<BlockView>) -> Seq<
    (OutPointView, UTXOValueView),
>
    decreases blocks.len(),
{
    if blocks.len() == 0 {
        entries
    } else {
        apply_block(apply_blocks(entries, blocks.drop_last()), blocks.last())
    }
}

/// The text of the error for a block that is to be taken back.
pub open spec fn revert_error_text() -> Seq<char> {
    "Reverting a block is not supported"@
}

/// `position` finds the key where it stands, and finds nothing only where
/// the key stands nowhere.
pub proof fn lemma_position(entries: Seq<(OutPointView, UTXOValueView)>, key: OutPointView)
    ensures
        match position(entries, key) {
            Some(i) => 0 <= i < entries.len() && entries[i].0 == key,
            None => forall|i: int| 0 <= i < entries.len() ==> (#[trigger] entries[i]).0 != key,
        },
    decreases entries.len(),
{
    if entries.len() > 0 && entries.last().0 != key {
        lemma_position(entries.drop_last(), key);
        assert forall|i: int| 0 <= i < entries.len() && position(entries, key) is None implies (
        #[trigger] entries[i]).0 != key by {
            if i < entries.len() - 1 {
                assert(entries.drop_last()[i] == entries[i]);
            }
        }
    }
}

/// Keeping a value for an outpoint leaves no outpoint twice.
pub proof fn lemma_put_keeps_distinct(
    entries: Seq<(OutPointView, UTXOValueView)>,
    key: OutPointView,
    value: UTXOValueView,
)
    requires
        distinct_keys(entries),
    ensures
        distinct_keys(put(entries, key, value)),
{
    lemma_position(entries, key);
    let after = put(entries, key, value);
    assert forall|i: int, j: int|
        0 <= i < after.len() && 0 <= j < after.len() && i != j implies (#[trigger] after[i]).0 != (
    #[trigger] after[j]).0 by {
        match position(entries, key) {
            Some(p) => {
                if i != p {
                    assert(after[i] == entries[i]);
                }
                if j != p {
                    assert(after[j] == entries[j]);
                }
                assert(entries[p].0 == key);
            },
            None => {
                if i < entries.len() {
                    assert(after[i] == entries[i]);
                }
                if j < entries.len() {
                    assert(after[j] == entries[j]);
                }
            },
        }
    }
}

/// Dropping an outpoint leaves no outpoint twice.
pub proof fn lemma_without_keeps_distinct(
    entries: Seq<(OutPointView, UTXOValueView)>,
    key: OutPointView,
)
    requires
        distinct_keys(entries),
    ensures
        distinct_keys(without(entries, key)),
{
    lemma_position(entries, key);
    let less = without(entries, key);
    assert forall|i: int, j: int|
        0 <= i < less.len() && 0 <= j < less.len() && i != j implies (#[trigger] less[i]).0 != (
    #[trigger] less[j]).0 by {
        match position(entries, key) {
            Some(p) => {
                let a = if i < p {
                    i
                } else {
                    i + 1
                };
                let b = if j < p {
                    j
                } else {
                    j + 1
                };
                assert(less[i] == entries[a]);
                assert(less[j] == entries[b]);
            },
            None => {},
        }
    }
}

/// The set of unspent transaction outputs: for each outpoint that has not
/// been spent, the output and the block that holds it. No outpoint occurs
/// twice; the entries keep the order in which they came.
pub struct UTXO {
    tx_set: Vec<(OutPoint, UTXOValue)>,
    synced: bool,
}

impl View for UTXO {
    type V = Seq<(OutPointView, UTXOValueView)>;

    closed spec fn view(&self) -> Seq<(OutPointView, UTXOValueView)> {
        entries_view(self.tx_set@)
    }
}

impl UTXO {
    /// No outpoint occurs twice in the set.
    #[verifier::type_invariant]
    pub closed spec fn wf(&self) -> bool {
        distinct_keys(entries_view(self.tx_set@))
    }

    /// Whether the set has been built from the whole chain of blocks.
    pub closed spec fn synced(&self) -> bool {
        self.synced
    }

    /// An empty set that has not been built yet.
    pub fn new() -> (utxo: Self)
        ensures
            utxo@ == Seq::<(OutPointView, UTXOValueView)>::empty(),
            !utxo.synced(),
            utxo.wf(),
    {
        let utxo = Self { tx_set: Vec::new(), synced: false };
        assert(entries_view(utxo.tx_set@) =~= Seq::empty());
        utxo
    }

    /// No outpoint occurs twice in the set.
    pub proof fn lemma_distinct(&self)
        requires
            self.wf(),
        ensures
            distinct_keys(self@),
    {
    }

    /// Whether the set has been built from the whole chain of blocks.
    pub fn is_synced(&self) -> (synced: bool)
        ensures
            synced == self.synced(),
    {
        self.synced
    }

    /// Notes that the set has been built from the whole chain of blocks.
    pub fn set_synced(&mut self)
        ensures
            final(self)@ == old(self)@,
            final(self).synced(),
            final(self).wf(),
    {
        proof {
            use_type_invariant(&*self);
        }
        self.synced = true;
    }

    /// The number of outpoints in the set.
    pub fn len(&self) -> (n: usize)
        ensures
            n == self@.len(),
    {
        self.tx_set.len()
    }

    /// The outpoint and the value at place `i`.
    pub fn entry(&self, i: usize) -> (entry: (&OutPoint, &UTXOValue))
        requires
            i < self@.len(),
        ensures
            entry.0@ == self@[i as int].0,
            entry.1@ == self@[i as int].1,
    {
        let pair = &self.tx_set[i];
        (&pair.0, &pair.1)
    }

    /// Where `outpoint` stands in the set, if it does.
    fn find(&self, outpoint: &OutPoint) -> (found: Option<usize>)
        ensures
            match found {
                Some(k) => k < self.tx_set@.len() && position(self@, outpoint@) == Some(k as int),
                None => position(self@, outpoint@) is None,
            },
    {
        let ghost entries = self@;
        let mut i: usize = self.tx_set.len();
        assert(entries.take(i as int) =~= entries);
        while i > 0
            invariant
                i <= self.tx_set@.len(),
                entries == entries_view(self.tx_set@),
                position(entries, outpoint@) == position(entries.take(i as int), outpoint@),
            decreases i,
        {
            proof {
                let front = entries.take(i as int);
                assert(front.drop_last() =~= entries.take(i - 1));
                assert(front.last() == entries[i - 1]);
            }
            i = i - 1;
            if self.tx_set[i].0.same(outpoint) {
                return Some(i);
            }
        }
        None
    }

    /// What the set keeps for `outpoint`, if anything.
    pub fn get(&self, outpoint: &OutPoint) -> (value: Option<&UTXOValue>)
        ensures
            match lookup(self@, outpoint@) {
                Some(kept) => value is Some && value->Some_0@ == kept,
                None => value is None,
            },
    {
        match self.find(outpoint) {
            Some(i) => Some(&self.tx_set[i].1),
            None => None,
        }
    }

    /// Keeps `value` for `outpoint`, in the place of what was kept for it
    /// before, if anything was.
    pub fn insert(&mut self, outpoint: OutPoint, value: UTXOValue)
        ensures
            final(self)@ == put(old(self)@, outpoint@, value@),
            final(self).synced() == old(self).synced(),
            final(self).wf(),
    {
        proof {
            use_type_invariant(&*self);
            lemma_put_keeps_distinct(self@, outpoint@, value@);
        }
        let found = self.find(&outpoint);
        let mut entries: Vec<(OutPoint, UTXOValue)> = Vec::new();
        assert(entries_view(entries@) =~= Seq::empty());
        core::mem::swap(&mut self.tx_set, &mut entries);
        match found {
            Some(i) => {
                entries[i] = (outpoint, value);
            },
            None => {
                entries.push((outpoint, value));
            },
        }
        assert(entries_view(entries@) =~= put(old(self)@, outpoint@, value@));
        self.tx_set = entries;
    }

    /// Drops what the set keeps for `outpoint`, if anything.
    pub fn remove(&mut self, outpoint: &OutPoint)
        ensures
            final(self)@ == without(old(self)@, outpoint@),
            final(self).synced() == old(self).synced(),
            final(self).wf(),
    {
        proof {
            use_type_invariant(&*self);
            lemma_without_keeps_distinct(self@, outpoint@);
        }
        let found = self.find(outpoint);
        let mut entries: Vec<(OutPoint, UTXOValue)> = Vec::new();
        assert(entries_view(entries@) =~= Seq::empty());
        core::mem::swap(&mut self.tx_set, &mut entries);
        match found {
            Some(i) => {
                let _ = entries.remove(i);
            },
            None => {},
        }
        assert(entries_view(entries@) =~= without(old(self)@, outpoint@));
        self.tx_set = entries;
    }

    /// The sum of the values of the entries that pay to the key with hash
    /// `key_hash`; an error when the sum does not fit in 64 bits.
    pub fn balance_of_key(&self, key_hash: &Vec<u8>) -> (r: Result<u64, CustomError>)
        ensures
            owned_value(self@, key_hash@) <= u64::MAX ==> r == Ok::<u64, CustomError>(
                owned_value(self@, key_hash@) as u64,
            ),
            owned_value(self@, key_hash@) > u64::MAX ==> r == Err::<u64, CustomError>(
                CustomError::ValueOutOfRange,
            ),
    {
        let ghost entries = self@;
        let mut sum: u128 = 0;
        let mut i: usize = 0;
        while i < self.tx_set.len()
            invariant
                i <= self.tx_set@.len(),
                entries == entries_view(self.tx_set@),
                sum == owned_value(entries.take(i as int), key_hash@),
                sum <= i * u64::MAX,
            decreases self.tx_set@.len() - i,
        {
            proof {
                let next = entries.take(i + 1);
                assert(next.drop_last() =~= entries.take(i as int));
                assert(next.last() == entries[i as int]);
                let owned = owned_entries(entries.take(i as int), key_hash@);
                assert(owned.push(next.last()).drop_last() =~= owned);
                assert(i * u64::MAX + u64::MAX == (i + 1) * u64::MAX) by (nonlinear_arith);
                assert((i + 1) * u64::MAX <= usize::MAX * u64::MAX) by (nonlinear_arith)
                    requires
                        i + 1 <= usize::MAX,
                ;
            }
            let entry = &self.tx_set[i];
            if crate::structs::tx_output::compare_p2pkh(&entry.1.tx_out.script_pubkey, key_hash) {
                sum = sum + entry.1.tx_out.value as u128;
            }
            i = i + 1;
        }
        assert(entries.take(i as int) =~= entries);
        if sum > u64::MAX as u128 {
            Err(CustomError::ValueOutOfRange)
        } else {
            Ok(sum as u64)
        }
    }

    /// The entries that pay to the key with hash `key_hash`, in the order
    /// of the set.
    pub fn utxo_of_key(&self, key_hash: &Vec<u8>) -> (owned: Vec<(OutPoint, UTXOValue)>)
        ensures
            entries_view(owned@) == owned_entries(self@, key_hash@),
    {
        let ghost entries = self@;
        let mut owned: Vec<(OutPoint, UTXOValue)> = Vec::new();
        let mut i: usize = 0;
        assert(entries_view(owned@) =~= Seq::empty());
        while i < self.tx_set.len()
            invariant
                i <= self.tx_set@.len(),
                entries == entries_view(self.tx_set@),
                entries_view(owned@) == owned_entries(entries.take(i as int), key_hash@),
            decreases self.tx_set@.len() - i,
        {
            proof {
                let next = entries.take(i + 1);
                assert(next.drop_last() =~= entries.take(i as int));
                assert(next.last() == entries[i as int]);
            }
            let entry = &self.tx_set[i];
            if crate::structs::tx_output::compare_p2pkh(&entry.1.tx_out.script_pubkey, key_hash) {
                let copy = (entry.0.duplicate(), entry.1.duplicate());
                proof {
                    assert(entries_view(owned@.push(copy)) =~= entries_view(owned@).push(
                        (copy.0@, copy.1@),
                    ));
                }
                owned.push(copy);
            }
            i = i + 1;
        }
        assert(entries.take(i as int) =~= entries);
        owned
    }

    /// Applies one transaction, named by `tx_hash` and held by the block
    /// with hash `block_hash`: every output that its inputs spend leaves
    /// the set, then every output of its own enters it.
    pub fn apply_transaction(
        &mut self,
        transaction: &Transaction,
        tx_hash: &Vec<u8>,
        block_hash: &Vec<u8>,
    )
        ensures
            final(self)@ == apply_transaction(old(self)@, transaction@, tx_hash@, block_hash@),
            final(self).synced() == old(self).synced(),
            final(self).wf(),
    {
        proof {
            use_type_invariant(&*self);
        }
        let ghost start = self@;
        let ghost inputs = transaction@.inputs;
        let ghost outputs = transaction@.outputs;
        let mut i: usize = 0;
        while i < transaction.inputs.len()
            invariant
                i <= transaction.inputs@.len(),
                inputs == inputs_view(transaction.inputs@),
                self@ == spend_inputs(start, inputs.take(i as int)),
                self.synced() == old(self).synced(),
                self.wf(),
            decreases transaction.inputs@.len() - i,
        {
            proof {
                let next = inputs.take(i + 1);
                assert(next.drop_last() =~= inputs.take(i as int));
                assert(next.last() == transaction.inputs@[i as int]@);
            }
            self.remove(&transaction.inputs[i].previous_output);
            i = i + 1;
        }
        assert(inputs.take(i as int) =~= inputs);
        let ghost spent = self@;
        let mut i: usize = 0;
        while i < transaction.outputs.len()
            invariant
                i <= transaction.outputs@.len(),
                outputs == outputs_view(transaction.outputs@),
                self@ == add_outputs(spent, outputs.take(i as int), tx_hash@, block_hash@),
                self.synced() == old(self).synced(),
                self.wf(),
            decreases transaction.outputs@.len() - i,
        {
            proof {
                let next = outputs.take(i + 1);
                assert(next.drop_last() =~= outputs.take(i as int));
                assert(next.last() == transaction.outputs@[i as int]@);
            }
            if i <= u32::MAX as usize {
                let outpoint = OutPoint { hash: copy_bytes(tx_hash), index: i as u32 };
                let value = UTXOValue {
                    tx_out: transaction.outputs[i].duplicate(),
                    block_hash: copy_bytes(block_hash),
                };
                self.insert(outpoint, value);
            }
            i = i + 1;
        }
        assert(outputs.take(i as int) =~= outputs);
    }

    /// Applies the transactions of `block`, in their order. Taking a block
    /// back is not supported: with `forward` false the set stays as it is
    /// and an error says so.
    pub fn update_from_block(&mut self, block: &Block, forward: bool) -> (r: Result<
        (),
        CustomError,
    >)
        ensures
            forward ==> r is Ok && final(self)@ == apply_block(old(self)@, block@),
            !forward ==> r is Err && rejected_with(r->Err_0, revert_error_text()) && final(self)@
                == old(self)@,
            final(self).synced() == old(self).synced(),
            final(self).wf(),
    {
        proof {
            use_type_invariant(&*self);
        }
        if !forward {
            return Err(
                CustomError::Validation(String::from_str("Reverting a block is not supported")),
            );
        }
        let ghost start = self@;
        let ghost transactions = block@.transactions;
        let mut i: usize = 0;
        while i < block.transactions.len()
            invariant
                i <= block.transactions@.len(),
                transactions == crate::messages::block::transactions_view(block.transactions@),
                self@ == apply_transactions(start, transactions.take(i as int), block@.header.hash),
                self.synced() == old(self).synced(),
                self.wf(),
            decreases block.transactions@.len() - i,
        {
            proof {
                let next = transactions.take(i + 1);
                assert(next.drop_last() =~= transactions.take(i as int));
                assert(next.last() == block.transactions@[i as int]@);
            }
            let tx_hash = block.transactions[i].hash();
            self.apply_transaction(&block.transactions[i], &tx_hash, &block.header.hash);
            i = i + 1;
        }
        assert(transactions.take(i as int) =~= transactions);
        Ok(())
    }

    /// Builds the set from the whole chain: applies `blocks`, which are to
    /// be the stored blocks in the order of their headers, and notes that
    /// the set is built.
    pub fn generate(&mut self, blocks: &Vec<Block>)
        ensures
            final(self)@ == apply_blocks(old(self)@, blocks_view(blocks@)),
            final(self).synced(),
            final(self).wf(),
    {
        proof {
            use_type_invariant(&*self);
        }
        let ghost start = self@;
        let ghost items = blocks_view(blocks@);
        let mut i: usize = 0;
        while i < blocks.len()
            invariant
                i <= blocks@.len(),
                items == blocks_view(blocks@),
                self@ == apply_blocks(start, items.take(i as int)),
                self.wf(),
            decreases blocks@.len() - i,
        {
            proof {
                let next = items.take(i + 1);
                assert(next.drop_last() =~= items.take(i as int));
                assert(next.last() == blocks@[i as int]@);
            }
            let _ = self.update_from_block(&blocks[i], true);
            i = i + 1;
        }
        assert(items.take(i as int) =~= items);
        self.set_synced();
    }

    /// The funds of `wallet`: the sum of the values of the unspent outputs
    /// that pay to its public key. Fails when the key cannot be read, or
    /// when the sum does not fit in 64 bits.
    pub fn wallet_balance(&self, wallet: &Wallet) -> (r: Result<u64, CustomError>)
        ensures
            match pubkey_hash_of(wallet.pubkey@) {
                None => r is Err && rejected_with(r->Err_0, pubkey_error_text()),
                Some(hash) => if owned_value(self@, hash) <= u64::MAX {
                    r == Ok::<u64, CustomError>(owned_value(self@, hash) as u64)
                } else {
                    r == Err::<u64, CustomError>(CustomError::ValueOutOfRange)
                },
            },
    {
        match wallet.get_pubkey_hash() {
            Ok(hash) => self.balance_of_key(&hash),
            Err(e) => Err(e),
        }
    }

    /// The unspent outputs that pay to the public key of `wallet`, in the
    /// order of the set. Fails when the key cannot be read.
    pub fn generate_wallet_utxo(&self, wallet: &Wallet) -> (r: Result<
        Vec<(OutPoint, UTXOValue)>,
        CustomError,
    >)
        ensures
            match pubkey_hash_of(wallet.pubkey@) {
                None => r is Err && rejected_with(r->Err_0, pubkey_error_text()),
                Some(hash) => r is Ok && entries_view(r->Ok_0@) == owned_entries(self@, hash),
            },
    {
        match wallet.get_pubkey_hash() {
            Ok(hash) => Ok(self.utxo_of_key(&hash)),
            Err(e) => Err(e),
        }
    }
}

} // verus!
