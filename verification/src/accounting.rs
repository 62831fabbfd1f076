use vstd::prelude::*;
use crate::messages::block::BlockView;
use crate::messages::transaction::{
    input_value, received_value, spent_value, TransactionInputView, TransactionView,
};
use crate::states::pending_txs_state::movements_of;
use crate::states::utxo_state::{
    add_outputs, apply_block, apply_transaction, apply_transactions, distinct_keys,
    lemma_position, lemma_put_keeps_distinct, lemma_without_keeps_distinct, lookup,
    owned_entries, owned_value, position, put, spend_inputs, without, OutPointView,
    UTXOValueView,
};
use crate::states::wallets_state::named_transactions;
use crate::structs::tx_output::{pays_to_key, TransactionOutputView};
use crate::wallet::MovementView;

verus! {

/// What one entry adds to the funds of the key with hash `key_hash`: its
/// value when it pays to the key, nothing otherwise.
pub open spec fn entry_value(entry: (OutPointView, UTXOValueView), key_hash: Seq<u8>) -> nat {
    if pays_to_key(entry.1.tx_out.script_pubkey, key_hash) {
        entry.1.tx_out.value as nat
    } else {
        0
    }
}

/// One more entry adds its value to the funds.
pub proof fn lemma_owned_value_push(
    entries: Seq<(OutPointView, UTXOValueView)>,
    entry: (OutPointView, UTXOValueView),
    key_hash: Seq<u8>,
)
    ensures
        owned_value(entries.push(entry), key_hash) == owned_value(entries, key_hash) + entry_value(
            entry,
            key_hash,
        ),
{
    let longer = entries.push(entry);
    assert(longer.drop_last() =~= entries);
    assert(longer.last() == entry);
    let owned = owned_entries(entries, key_hash);
    if pays_to_key(entry.1.tx_out.script_pubkey, key_hash) {
        assert(owned.push(entry).drop_last() =~= owned);
    }
}

/// Taking one entry out takes its value from the funds.
pub proof fn lemma_owned_value_remove(
    entries: Seq<(OutPointView, UTXOValueView)>,
    i: int,
    key_hash: Seq<u8>,
)
    requires
        0 <= i < entries.len(),
    ensures
        owned_value(entries.remove(i), key_hash) + entry_value(entries[i], key_hash)
            == owned_value(entries, key_hash),
    decreases entries.len(),
{
    let front = entries.drop_last();
    lemma_owned_value_push(front, entries.last(), key_hash);
    assert(front.push(entries.last()) =~= entries);
    if i == entries.len() - 1 {
        assert(entries.remove(i) =~= front);
    } else {
        lemma_owned_value_remove(front, i, key_hash);
        assert(entries.remove(i) =~= front.remove(i).push(entries.last()));
        lemma_owned_value_push(front.remove(i), entries.last(), key_hash);
    }
}

/// Where no outpoint occurs twice, an outpoint is looked up at the one
/// place where it stands.
pub proof fn lemma_lookup_at(entries: Seq<(OutPointView, UTXOValueView)>, i: int)
    requires
        distinct_keys(entries),
        0 <= i < entries.len(),
    ensures
        position(entries, entries[i].0) == Some(i),
        lookup(entries, entries[i].0) == Some(entries[i].1),
{
    lemma_position(entries, entries[i].0);
}

/// Dropping an outpoint leaves every other outpoint as it was, and the
/// dropped one absent.
pub proof fn lemma_lookup_without(
    entries: Seq<(OutPointView, UTXOValueView)>,
    dropped: OutPointView,
    other: OutPointView,
)
    requires
        distinct_keys(entries),
    ensures
        lookup(without(entries, dropped), other) == if other == dropped {
            None
        } else {
            lookup(entries, other)
        },
{
    let left = without(entries, dropped);
    lemma_position(entries, dropped);
    lemma_position(entries, other);
    lemma_position(left, other);
    lemma_without_keeps_distinct(entries, dropped);
    match position(entries, dropped) {
        None => {},
        Some(p) => {
            match position(left, other) {
                Some(q) => {
                    let source = if q < p {
                        q
                    } else {
                        q + 1
                    };
                    assert(left[q] == entries[source]);
                    lemma_lookup_at(entries, source);
                },
                None => {
                    match position(entries, other) {
                        Some(i) => {
                            if i != p {
                                let shifted = if i < p {
                                    i
                                } else {
                                    i - 1
                                };
                                assert(left[shifted] == entries[i]);
                            }
                        },
                        None => {},
                    }
                },
            }
        },
    }
}

/// Keeping a value for an outpoint leaves every other outpoint as it was.
pub proof fn lemma_lookup_put(
    entries: Seq<(OutPointView, UTXOValueView)>,
    key: OutPointView,
    value: UTXOValueView,
    other: OutPointView,
)
    requires
        distinct_keys(entries),
    ensures
        lookup(put(entries, key, value), other) == if other == key {
            Some(value)
        } else {
            lookup(entries, other)
        },
{
    let after = put(entries, key, value);
    lemma_position(entries, key);
    lemma_position(entries, other);
    lemma_position(after, other);
    lemma_put_keeps_distinct(entries, key, value);
    match position(after, other) {
        Some(q) => {
            lemma_lookup_at(after, q);
            match position(entries, key) {
                Some(p) => {
                    if q != p {
                        assert(after[q] == entries[q]);
                        lemma_lookup_at(entries, q);
                    }
                },
                None => {
                    if q < entries.len() {
                        assert(after[q] == entries[q]);
                        lemma_lookup_at(entries, q);
                    }
                },
            }
        },
        None => {
            match position(entries, key) {
                Some(p) => {
                    assert(after[p].0 == key);
                    match position(entries, other) {
                        Some(i) => {
                            if i != p {
                                assert(after[i] == entries[i]);
                            }
                        },
                        None => {},
                    }
                },
                None => {
                    assert(after[entries.len() as int].0 == key);
                    match position(entries, other) {
                        Some(i) => {
                            assert(after[i] == entries[i]);
                        },
                        None => {},
                    }
                },
            }
        },
    }
}

/// Dropping an outpoint takes from the funds the value that was kept for
/// it, when it paid to the key.
pub proof fn lemma_owned_value_without(
    entries: Seq<(OutPointView, UTXOValueView)>,
    dropped: OutPointView,
    key_hash: Seq<u8>,
)
    ensures
        owned_value(without(entries, dropped), key_hash) + (match lookup(entries, dropped) {
            Some(kept) => if pays_to_key(kept.tx_out.script_pubkey, key_hash) {
                kept.tx_out.value as nat
            } else {
                0
            },
            None => 0,
        }) == owned_value(entries, key_hash),
{
    lemma_position(entries, dropped);
    match position(entries, dropped) {
        Some(p) => {
            lemma_owned_value_remove(entries, p, key_hash);
        },
        None => {},
    }
}

/// Keeping a value for an outpoint that was absent adds the value to the
/// funds, when it pays to the key.
pub proof fn lemma_owned_value_put_fresh(
    entries: Seq<(OutPointView, UTXOValueView)>,
    key: OutPointView,
    value: UTXOValueView,
    key_hash: Seq<u8>,
)
    requires
        lookup(entries, key) is None,
    ensures
        owned_value(put(entries, key, value), key_hash) == owned_value(entries, key_hash)
            + entry_value((key, value), key_hash),
{
    lemma_owned_value_push(entries, (key, value), key_hash);
}

/// Whether one of the inputs spends this outpoint.
pub open spec fn spent_by(inputs: Seq<TransactionInputView>, outpoint: OutPointView) -> bool {
    exists|i: int| 0 <= i < inputs.len() && (#[trigger] inputs[i]).previous_output == outpoint
}

/// No two inputs spend one outpoint.
pub open spec fn spend_once(inputs: Seq<TransactionInputView>) -> bool {
    forall|i: int, j: int|
        0 <= i < inputs.len() && 0 <= j < inputs.len() && i != j ==> (
        #[trigger] inputs[i]).previous_output != (#[trigger] inputs[j]).previous_output
}

/// What spending does to the unspent outputs and to the funds of a key,
/// when no two inputs spend one outpoint: every outpoint that is spent is
/// absent afterwards, every other is as it was, and the funds go down by
/// what the inputs take from them.
pub proof fn lemma_spend_inputs(
    entries: Seq<(OutPointView, UTXOValueView)>,
    inputs: Seq<TransactionInputView>,
    key_hash: Seq<u8>,
)
    requires
        distinct_keys(entries),
        spend_once(inputs),
    ensures
        distinct_keys(spend_inputs(entries, inputs)),
        owned_value(spend_inputs(entries, inputs), key_hash) + spent_value(
            inputs,
            entries,
            key_hash,
        ) == owned_value(entries, key_hash),
        forall|outpoint: OutPointView| #[trigger]
            lookup(spend_inputs(entries, inputs), outpoint) == if spent_by(inputs, outpoint) {
                None
            } else {
                lookup(entries, outpoint)
            },
    decreases inputs.len(),
{
    if inputs.len() > 0 {
        let front = inputs.drop_last();
        let last = inputs.last();
        let before = spend_inputs(entries, front);
        assert(spend_once(front)) by {
            assert forall|i: int, j: int|
                0 <= i < front.len() && 0 <= j < front.len() && i != j implies (
            #[trigger] front[i]).previous_output != (#[trigger] front[j]).previous_output by {
                assert(front[i] == inputs[i]);
                assert(front[j] == inputs[j]);
            }
        }
        lemma_spend_inputs(entries, front, key_hash);
        lemma_without_keeps_distinct(before, last.previous_output);
        lemma_owned_value_without(before, last.previous_output, key_hash);
        assert(!spent_by(front, last.previous_output)) by {
            if spent_by(front, last.previous_output) {
                let i = choose|i: int|
                    0 <= i < front.len() && (#[trigger] front[i]).previous_output
                        == last.previous_output;
                assert(front[i] == inputs[i]);
                assert(inputs[inputs.len() - 1] == last);
            }
        }
        assert(lookup(before, last.previous_output) == lookup(entries, last.previous_output));
        assert(input_value(last, entries, key_hash) == match lookup(before, last.previous_output) {
            Some(kept) => if pays_to_key(kept.tx_out.script_pubkey, key_hash) {
                kept.tx_out.value as nat
            } else {
                0
            },
            None => 0,
        });
        assert forall|outpoint: OutPointView| #[trigger]
            lookup(spend_inputs(entries, inputs), outpoint) == if spent_by(inputs, outpoint) {
                None
            } else {
                lookup(entries, outpoint)
            } by {
            lemma_lookup_without(before, last.previous_output, outpoint);
            if outpoint == last.previous_output {
                assert(inputs[inputs.len() - 1].previous_output == outpoint);
            } else if spent_by(front, outpoint) {
                let i = choose|i: int|
                    0 <= i < front.len() && (#[trigger] front[i]).previous_output == outpoint;
                assert(inputs[i] == front[i]);
            } else if spent_by(inputs, outpoint) {
                let i = choose|i: int|
                    0 <= i < inputs.len() && (#[trigger] inputs[i]).previous_output == outpoint;
                assert(front[i] == inputs[i]);
            }
        }
    } else {
        assert forall|outpoint: OutPointView| !spent_by(inputs, outpoint) by {}
    }
}

/// What adding the outputs of a transaction does to the unspent outputs
/// and to the funds of a key, when no unspent output has the hash of the
/// transaction yet: each output is looked up under the hash and its index,
/// every other outpoint is as it was, and the funds go up by what the
/// outputs pay to the key.
pub proof fn lemma_add_outputs(
    entries: Seq<(OutPointView, UTXOValueView)>,
    outputs: Seq<TransactionOutputView>,
    tx_hash: Seq<u8>,
    block_hash: Seq<u8>,
    key_hash: Seq<u8>,
)
    requires
        distinct_keys(entries),
        outputs.len() <= u32::MAX + 1,
        forall|outpoint: OutPointView|
            outpoint.hash == tx_hash ==> #[trigger] lookup(entries, outpoint) is None,
    ensures
        distinct_keys(add_outputs(entries, outputs, tx_hash, block_hash)),
        owned_value(add_outputs(entries, outputs, tx_hash, block_hash), key_hash) == owned_value(
            entries,
            key_hash,
        ) + received_value(outputs, key_hash),
        forall|outpoint: OutPointView| #[trigger]
            lookup(add_outputs(entries, outputs, tx_hash, block_hash), outpoint) == if outpoint.hash
                == tx_hash && outpoint.index < outputs.len() {
                Some(UTXOValueView { tx_out: outputs[outpoint.index as int], block_hash })
            } else {
                lookup(entries, outpoint)
            },
    decreases outputs.len(),
{
    if outputs.len() > 0 {
        let front = outputs.drop_last();
        let before = add_outputs(entries, front, tx_hash, block_hash);
        let key = OutPointView { hash: tx_hash, index: (outputs.len() - 1) as u32 };
        let value = UTXOValueView { tx_out: outputs.last(), block_hash };
        lemma_add_outputs(entries, front, tx_hash, block_hash, key_hash);
        lemma_put_keeps_distinct(before, key, value);
        assert(lookup(before, key) == lookup(entries, key));
        lemma_owned_value_put_fresh(before, key, value, key_hash);
        assert forall|outpoint: OutPointView| #[trigger]
            lookup(add_outputs(entries, outputs, tx_hash, block_hash), outpoint) == if outpoint.hash
                == tx_hash && outpoint.index < outputs.len() {
                Some(UTXOValueView { tx_out: outputs[outpoint.index as int], block_hash })
            } else {
                lookup(entries, outpoint)
            } by {
            lemma_lookup_put(before, key, value, outpoint);
            if outpoint.hash == tx_hash && outpoint.index < front.len() {
                assert(front[outpoint.index as int] == outputs[outpoint.index as int]);
            }
        }
    }
}

/// Whether a transaction named by `tx_hash` changes the unspent outputs
/// `entries` without meeting itself: no two of its inputs spend one
/// outpoint, none of its inputs spends an output of its own, it has no
/// more outputs than an index can name, and no unspent output has its hash
/// yet.
pub open spec fn applies_cleanly(
    entries: Seq<(OutPointView, UTXOValueView)>,
    transaction: TransactionView,
    tx_hash: Seq<u8>,
) -> bool {
    &&& spend_once(transaction.inputs)
    &&& transaction.outputs.len() <= u32::MAX + 1
    &&& forall|i: int|
        0 <= i < transaction.inputs.len() ==> (#[trigger] transaction.inputs[i]).previous_output.hash
            != tx_hash
    &&& forall|outpoint: OutPointView|
        outpoint.hash == tx_hash ==> #[trigger] lookup(entries, outpoint) is None
}

/// The funds of a key change, across a transaction that changes the
/// unspent outputs without meeting itself, by what the transaction pays to
/// the key less what it takes from it.
pub proof fn lemma_transaction_changes_funds(
    entries: Seq<(OutPointView, UTXOValueView)>,
    transaction: TransactionView,
    tx_hash: Seq<u8>,
    block_hash: Seq<u8>,
    key_hash: Seq<u8>,
)
    requires
        distinct_keys(entries),
        applies_cleanly(entries, transaction, tx_hash),
    ensures
        distinct_keys(apply_transaction(entries, transaction, tx_hash, block_hash)),
        owned_value(apply_transaction(entries, transaction, tx_hash, block_hash), key_hash)
            - owned_value(entries, key_hash) == transaction.movement_value(entries, key_hash),
        forall|outpoint: OutPointView|
            outpoint.hash != tx_hash ==> #[trigger] lookup(
                apply_transaction(entries, transaction, tx_hash, block_hash),
                outpoint,
            ) == if spent_by(transaction.inputs, outpoint) {
                None
            } else {
                lookup(entries, outpoint)
            },
{
    let spent = spend_inputs(entries, transaction.inputs);
    lemma_spend_inputs(entries, transaction.inputs, key_hash);
    assert forall|outpoint: OutPointView| outpoint.hash == tx_hash implies #[trigger] lookup(
        spent,
        outpoint,
    ) is None by {}
    lemma_add_outputs(spent, transaction.outputs, tx_hash, block_hash, key_hash);
}

/// Whether one of the transactions spends this outpoint.
pub open spec fn spent_in(transactions: Seq<TransactionView>, outpoint: OutPointView) -> bool {
    exists|i: int|
        0 <= i < transactions.len() && spent_by((#[trigger] transactions[i]).inputs, outpoint)
}

/// Whether one of the transactions has this hash.
pub open spec fn made_in(transactions: Seq<TransactionView>, hash: Seq<u8>) -> bool {
    exists|i: int| 0 <= i < transactions.len() && (#[trigger] transactions[i]).hash() == hash
}

/// Whether the transaction at place `n` of a block changes the unspent
/// outputs without meeting itself or the transactions before it: no two of
/// its inputs spend one outpoint; none of its inputs spends an outpoint
/// that an earlier transaction of the block spends, or an output of an
/// earlier transaction or of its own; it has no more outputs than an index
/// can name; and its hash is that of no earlier transaction and of no
/// unspent output.
pub open spec fn clean_step(
    entries: Seq<(OutPointView, UTXOValueView)>,
    transactions: Seq<TransactionView>,
    n: int,
) -> bool {
    &&& spend_once(transactions[n].inputs)
    &&& transactions[n].outputs.len() <= u32::MAX + 1
    &&& forall|a: int|
        0 <= a < transactions[n].inputs.len() ==> !spent_in(
            transactions.take(n),
            (#[trigger] transactions[n].inputs[a]).previous_output,
        ) && !made_in(transactions.take(n + 1), transactions[n].inputs[a].previous_output.hash)
    &&& !made_in(transactions.take(n), transactions[n].hash())
    &&& forall|outpoint: OutPointView|
        outpoint.hash == transactions[n].hash() ==> #[trigger] lookup(entries, outpoint) is None
}

/// Whether every transaction of a block changes the unspent outputs
/// without meeting itself or the transactions before it.
pub open spec fn block_applies_cleanly(
    entries: Seq<(OutPointView, UTXOValueView)>,
    transactions: Seq<TransactionView>,
) -> bool {
    forall|n: int| 0 <= n < transactions.len() ==> #[trigger] clean_step(entries, transactions, n)
}

/// The sum of what the transactions change in the funds of a key, each
/// taken against the same unspent outputs.
pub open spec fn changes_total(
    transactions: Seq<TransactionView>,
    entries: Seq<(OutPointView, UTXOValueView)>,
    key_hash: Seq<u8>,
) -> int
    decreases transactions.len(),
{
    if transactions.len() == 0 {
        0
    } else {
        changes_total(transactions.drop_last(), entries, key_hash)
            + transactions.last().movement_value(entries, key_hash)
    }
}

/// The sum of the values of the movements.
pub open spec fn movements_total(movements: Seq<MovementView>) -> int
    decreases movements.len(),
{
    if movements.len() == 0 {
        0
    } else {
        movements_total(movements.drop_last()) + movements.last().value
    }
}

/// Inputs take the same from a key out of two sets of unspent outputs that
/// hold the same for every outpoint they spend.
pub proof fn lemma_spent_value_same(
    inputs: Seq<TransactionInputView>,
    one: Seq<(OutPointView, UTXOValueView)>,
    other: Seq<(OutPointView, UTXOValueView)>,
    key_hash: Seq<u8>,
)
    requires
        forall|a: int|
            0 <= a < inputs.len() ==> lookup(one, (#[trigger] inputs[a]).previous_output)
                == lookup(other, inputs[a].previous_output),
    ensures
        spent_value(inputs, one, key_hash) == spent_value(inputs, other, key_hash),
    decreases inputs.len(),
{
    if inputs.len() > 0 {
        let front = inputs.drop_last();
        assert forall|a: int| 0 <= a < front.len() implies lookup(
            one,
            (#[trigger] front[a]).previous_output,
        ) == lookup(other, front[a].previous_output) by {
            assert(front[a] == inputs[a]);
        }
        lemma_spent_value_same(front, one, other, key_hash);
        assert(inputs[inputs.len() - 1] == inputs.last());
    }
}

/// The funds of a key change, across the transactions of a block that
/// change the unspent outputs without meeting themselves or one another,
/// by the sum of what each transaction changes, taken against the unspent
/// outputs before the block.
pub proof fn lemma_block_changes_funds(
    entries: Seq<(OutPointView, UTXOValueView)>,
    transactions: Seq<TransactionView>,
    block_hash: Seq<u8>,
    key_hash: Seq<u8>,
)
    requires
        distinct_keys(entries),
        block_applies_cleanly(entries, transactions),
    ensures
        distinct_keys(apply_transactions(entries, transactions, block_hash)),
        owned_value(apply_transactions(entries, transactions, block_hash), key_hash) - owned_value(
            entries,
            key_hash,
        ) == changes_total(transactions, entries, key_hash),
        forall|outpoint: OutPointView|
            !made_in(transactions, outpoint.hash) ==> #[trigger] lookup(
                apply_transactions(entries, transactions, block_hash),
                outpoint,
            ) == if spent_in(transactions, outpoint) {
                None
            } else {
                lookup(entries, outpoint)
            },
    decreases transactions.len(),
{
    if transactions.len() > 0 {
        let n = transactions.len() - 1;
        let front = transactions.drop_last();
        let last = transactions.last();
        let before = apply_transactions(entries, front, block_hash);
        let after = apply_transactions(entries, transactions, block_hash);
        assert(front =~= transactions.take(n));
        assert(block_applies_cleanly(entries, front)) by {
            assert forall|m: int| 0 <= m < front.len() implies #[trigger] clean_step(
                entries,
                front,
                m,
            ) by {
                assert(clean_step(entries, transactions, m));
                assert(front[m] == transactions[m]);
                assert(front.take(m) =~= transactions.take(m));
                assert(front.take(m + 1) =~= transactions.take(m + 1));
            }
        }
        lemma_block_changes_funds(entries, front, block_hash, key_hash);
        assert(clean_step(entries, transactions, n));
        assert(transactions[n] == last);
        assert forall|a: int| 0 <= a < last.inputs.len() implies !made_in(
            front,
            (#[trigger] last.inputs[a]).previous_output.hash,
        ) && last.inputs[a].previous_output.hash != last.hash() by {
            let hash = last.inputs[a].previous_output.hash;
            let upto = transactions.take(n + 1);
            assert(!made_in(upto, hash));
            assert(upto =~= transactions);
            if made_in(front, hash) {
                let i = choose|i: int| 0 <= i < front.len() && (#[trigger] front[i]).hash() == hash;
                assert(transactions[i] == front[i]);
            }
            if hash == last.hash() {
                assert(transactions[n].hash() == hash);
            }
        }
        assert(applies_cleanly(before, last, last.hash())) by {
            assert forall|outpoint: OutPointView| outpoint.hash == last.hash() implies #[trigger] lookup(
                before,
                outpoint,
            ) is None by {}
        }
        lemma_transaction_changes_funds(before, last, last.hash(), block_hash, key_hash);
        lemma_spent_value_same(last.inputs, before, entries, key_hash);
        assert forall|outpoint: OutPointView| !made_in(transactions, outpoint.hash) implies #[trigger] lookup(
            after,
            outpoint,
        ) == if spent_in(transactions, outpoint) {
            None
        } else {
            lookup(entries, outpoint)
        } by {
            if made_in(front, outpoint.hash) {
                let i = choose|i: int|
                    0 <= i < front.len() && (#[trigger] front[i]).hash() == outpoint.hash;
                assert(transactions[i] == front[i]);
            }
            if outpoint.hash == last.hash() {
                assert(transactions[n].hash() == outpoint.hash);
            }
            if spent_in(front, outpoint) {
                let i = choose|i: int|
                    0 <= i < front.len() && spent_by((#[trigger] front[i]).inputs, outpoint);
                assert(transactions[i] == front[i]);
            }
            if spent_by(last.inputs, outpoint) {
                assert(spent_by(transactions[n].inputs, outpoint));
            }
            if spent_in(transactions, outpoint) {
                let i = choose|i: int|
                    0 <= i < transactions.len() && spent_by(
                        (#[trigger] transactions[i]).inputs,
                        outpoint,
                    );
                if i < n {
                    assert(front[i] == transactions[i]);
                }
            }
        }
    } else {
        assert forall|outpoint: OutPointView| !spent_in(transactions, outpoint) by {}
    }
}

/// The movements that are recorded for transactions add up to what the
/// transactions change in the funds of the key.
pub proof fn lemma_movements_add_up(
    transactions: Seq<TransactionView>,
    entries: Seq<(OutPointView, UTXOValueView)>,
    key_hash: Seq<u8>,
    block_hash: Option<Seq<u8>>,
)
    requires
        movements_of(named_transactions(transactions), entries, key_hash, block_hash) is Some,
    ensures
        movements_total(
            movements_of(named_transactions(transactions), entries, key_hash, block_hash)->Some_0,
        ) == changes_total(transactions, entries, key_hash),
    decreases transactions.len(),
{
    if transactions.len() > 0 {
        let named = named_transactions(transactions);
        let front = transactions.drop_last();
        assert(named.drop_last() =~= named_transactions(front));
        assert(named.last().1 == transactions.last());
        lemma_movements_add_up(front, entries, key_hash, block_hash);
        let earlier = movements_of(named_transactions(front), entries, key_hash, block_hash)->Some_0;
        let delta = transactions.last().movement_value(entries, key_hash);
        if delta != 0 {
            let movement = MovementView {
                tx_hash: named.last().0,
                value: delta as i64,
                block_hash,
            };
            assert(earlier.push(movement).drop_last() =~= earlier);
        }
    }
}

/// For every key and every block whose transactions change the unspent
/// outputs without meeting themselves or one another, the movements that
/// are recorded for the key across the block add up to the change of the
/// key's funds, the value of the unspent outputs that pay to it, across
/// the block.
pub proof fn lemma_movements_equal_change_of_funds(
    entries: Seq<(OutPointView, UTXOValueView)>,
    block: BlockView,
    key_hash: Seq<u8>,
)
    requires
        distinct_keys(entries),
        block_applies_cleanly(entries, block.transactions),
        movements_of(
            named_transactions(block.transactions),
            entries,
            key_hash,
            Some(block.header.hash),
        ) is Some,
    ensures
        movements_total(
            movements_of(
                named_transactions(block.transactions),
                entries,
                key_hash,
                Some(block.header.hash),
            )->Some_0,
        ) == owned_value(apply_block(entries, block), key_hash) - owned_value(entries, key_hash),
{
    lemma_block_changes_funds(entries, block.transactions, block.header.hash, key_hash);
    lemma_movements_add_up(block.transactions, entries, key_hash, Some(block.header.hash));
}

} // verus!
