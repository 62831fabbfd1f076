use vstd::prelude::*;
use crate::states::utxo_state::{
    entries_view, total_value, OutPoint, OutPointView, UTXOValue, UTXOValueView,
};

verus! {

/// The place of the largest value among the entries; of the first of them
/// when several are largest.
pub open spec fn first_largest(entries: Seq<(OutPointView, UTXOValueView)>) -> int
    decreases entries.len(),
{
    if entries.len() <= 1 {
        0
    } else {
        let before = first_largest(entries.drop_last());
        if entries.last().1.tx_out.value > entries[before].1.tx_out.value {
            entries.len() - 1
        } else {
            before
        }
    }
}

/// The entries from the largest value down; entries of one value keep the
/// order they had.
pub open spec fn sorted_by_value(entries: Seq<(OutPointView, UTXOValueView)>) -> Seq<
    (OutPointView, UTXOValueView),
>
    decreases entries.len(),
{
    let largest = first_largest(entries);
    if 0 <= largest < entries.len() {
        seq![entries[largest]] + sorted_by_value(entries.remove(largest))
    } else {
        Seq::empty()
    }
}

/// How many entries are taken, from the first on, to pay `total`: entries
/// are taken until the sum of their values has reached `total`; at least
/// one is taken when there is one; all are taken when their sum stays
/// below `total`.
pub open spec fn inputs_needed(entries: Seq<(OutPointView, UTXOValueView)>, total: int) -> nat
    decreases entries.len(),
{
    if entries.len() == 0 {
        0
    } else if entries[0].1.tx_out.value >= total {
        1
    } else {
        1 + inputs_needed(entries.drop_first(), total - entries[0].1.tx_out.value)
    }
}

/// The outpoints of the entries, in their order.
pub open spec fn entry_outpoints(entries: Seq<(OutPointView, UTXOValueView)>) -> Seq<OutPointView> {
    entries.map_values(|entry: (OutPointView, UTXOValueView)| entry.0)
}

/// The place of the largest value is a place among the entries, and no
/// value is larger than the one there.
pub proof fn lemma_first_largest(entries: Seq<(OutPointView, UTXOValueView)>)
    requires
        entries.len() > 0,
    ensures
        0 <= first_largest(entries) < entries.len(),
        forall|i: int|
            0 <= i < entries.len() ==> (#[trigger] entries[i]).1.tx_out.value
                <= entries[first_largest(entries)].1.tx_out.value,
    decreases entries.len(),
{
    if entries.len() > 1 {
        lemma_first_largest(entries.drop_last());
        assert forall|i: int| 0 <= i < entries.len() implies (#[trigger] entries[i]).1.tx_out.value
            <= entries[first_largest(entries)].1.tx_out.value by {
            if i < entries.len() - 1 {
                assert(entries.drop_last()[i] == entries[i]);
            }
        }
    }
}

/// The sum of the values of one entry is its value.
pub proof fn lemma_total_value_single(entry: (OutPointView, UTXOValueView))
    ensures
        total_value(seq![entry]) == entry.1.tx_out.value,
{
    reveal_with_fuel(total_value, 2);
    assert(seq![entry].drop_last() =~= Seq::<(OutPointView, UTXOValueView)>::empty());
    assert(seq![entry].last() == entry);
}

/// The sum of the values of two lists of entries, one after the other.
pub proof fn lemma_total_value_concat(
    a: Seq<(OutPointView, UTXOValueView)>,
    b: Seq<(OutPointView, UTXOValueView)>,
)
    ensures
        total_value(a + b) == total_value(a) + total_value(b),
    decreases b.len(),
{
    if b.len() == 0 {
        assert(a + b =~= a);
    } else {
        assert((a + b).drop_last() =~= a + b.drop_last());
        lemma_total_value_concat(a, b.drop_last());
    }
}

/// Taking one entry out lowers the sum by its value.
pub proof fn lemma_total_value_remove(entries: Seq<(OutPointView, UTXOValueView)>, i: int)
    requires
        0 <= i < entries.len(),
    ensures
        total_value(entries.remove(i)) + entries[i].1.tx_out.value == total_value(entries),
{
    let front = entries.take(i);
    let back = entries.skip(i + 1);
    assert(entries.remove(i) =~= front + back);
    assert(entries =~= front + seq![entries[i]] + back);
    lemma_total_value_single(entries[i]);
    lemma_total_value_concat(front, back);
    lemma_total_value_concat(front + seq![entries[i]], back);
    lemma_total_value_concat(front, seq![entries[i]]);
}

/// Ordering the entries keeps their number and the sum of their values.
pub proof fn lemma_sorted_keeps_total(entries: Seq<(OutPointView, UTXOValueView)>)
    ensures
        sorted_by_value(entries).len() == entries.len(),
        total_value(sorted_by_value(entries)) == total_value(entries),
    decreases entries.len(),
{
    if entries.len() > 0 {
        lemma_first_largest(entries);
        let m = first_largest(entries);
        let rest = entries.remove(m);
        lemma_sorted_keeps_total(rest);
        lemma_total_value_remove(entries, m);
        lemma_total_value_single(entries[m]);
        lemma_total_value_concat(seq![entries[m]], sorted_by_value(rest));
    }
}

/// The ordered entries go from the largest value down.
pub proof fn lemma_sorted_descends(entries: Seq<(OutPointView, UTXOValueView)>)
    ensures
        forall|i: int, j: int|
            0 <= i <= j < sorted_by_value(entries).len() ==> (#[trigger] sorted_by_value(
                entries,
            )[i]).1.tx_out.value >= (#[trigger] sorted_by_value(entries)[j]).1.tx_out.value,
        forall|i: int|
            0 <= i < sorted_by_value(entries).len() ==> exists|k: int|
                0 <= k < entries.len() && entries[k] == #[trigger] sorted_by_value(entries)[i],
    decreases entries.len(),
{
    let sorted = sorted_by_value(entries);
    if entries.len() > 0 {
        lemma_first_largest(entries);
        let m = first_largest(entries);
        let rest = entries.remove(m);
        let tail = sorted_by_value(rest);
        lemma_sorted_descends(rest);
        assert forall|i: int| 0 <= i < sorted.len() implies exists|k: int|
            0 <= k < entries.len() && entries[k] == #[trigger] sorted[i] by {
            if i == 0 {
                assert(entries[m] == sorted[0]);
            } else {
                assert(sorted[i] == tail[i - 1]);
                let k = choose|k: int| 0 <= k < rest.len() && rest[k] == tail[i - 1];
                let source = if k < m {
                    k
                } else {
                    k + 1
                };
                assert(entries[source] == rest[k]);
            }
        }
        assert forall|i: int, j: int| 0 <= i <= j < sorted.len() implies (#[trigger] sorted[i]).1.tx_out.value
            >= (#[trigger] sorted[j]).1.tx_out.value by {
            if i == 0 {
                if j > 0 {
                    let k = choose|k: int| 0 <= k < entries.len() && entries[k] == sorted[j];
                    assert(entries[k].1.tx_out.value <= entries[m].1.tx_out.value);
                }
            } else {
                assert(sorted[i] == tail[i - 1]);
                assert(sorted[j] == tail[j - 1]);
            }
        }
    }
}

/// When the entries can pay `total`, those that are taken pay it.
pub proof fn lemma_inputs_reach_total(entries: Seq<(OutPointView, UTXOValueView)>, total: int)
    ensures
        inputs_needed(entries, total) <= entries.len(),
        total <= total_value(entries) ==> total <= total_value(
            entries.take(inputs_needed(entries, total) as int),
        ),
        total_value(entries.take(inputs_needed(entries, total) as int)) <= total_value(entries),
    decreases entries.len(),
{
    if entries.len() == 0 {
        assert(entries.take(0) =~= entries);
    } else {
        let first = entries[0];
        let rest = entries.drop_first();
        let value = first.1.tx_out.value as int;
        assert(entries =~= seq![first] + rest);
        lemma_total_value_single(first);
        lemma_total_value_concat(seq![first], rest);
        if value >= total {
            assert(entries.take(1) =~= seq![first]);
        } else {
            lemma_inputs_reach_total(rest, total - value);
            let k = inputs_needed(rest, total - value) as int;
            assert(entries.take(1 + k) =~= seq![first] + rest.take(k));
            lemma_total_value_concat(seq![first], rest.take(k));
        }
    }
}

/// The entries from the largest value down; entries of one value keep the
/// order they had.
pub fn sort_by_value(entries: Vec<(OutPoint, UTXOValue)>) -> (sorted: Vec<(OutPoint, UTXOValue)>)
    ensures
        entries_view(sorted@) == sorted_by_value(entries_view(entries@)),
{
    let mut left = entries;
    let mut sorted: Vec<(OutPoint, UTXOValue)> = Vec::new();
    let ghost all = entries_view(entries@);
    assert(entries_view(sorted@) + sorted_by_value(entries_view(left@)) =~= sorted_by_value(all));
    while left.len() > 0
        invariant
            entries_view(sorted@) + sorted_by_value(entries_view(left@)) == sorted_by_value(all),
        decreases left@.len(),
    {
        let ghost view = entries_view(left@);
        let mut best: usize = 0;
        let mut i: usize = 1;
        assert(view.take(1).drop_last() =~= Seq::<(OutPointView, UTXOValueView)>::empty());
        while i < left.len()
            invariant
                1 <= i <= left@.len(),
                view == entries_view(left@),
                best == first_largest(view.take(i as int)),
                best < i,
            decreases left@.len() - i,
        {
            proof {
                let next = view.take(i + 1);
                assert(next.drop_last() =~= view.take(i as int));
                assert(next.last() == view[i as int]);
                assert(view.take(i as int)[best as int] == view[best as int]);
            }
            if left[i].1.tx_out.value > left[best].1.tx_out.value {
                best = i;
            }
            i = i + 1;
        }
        assert(view.take(i as int) =~= view);
        proof {
            lemma_first_largest(view);
        }
        let entry = left.remove(best);
        proof {
            assert(entries_view(left@) =~= view.remove(best as int));
            assert(entries_view(sorted@.push(entry)) =~= entries_view(sorted@) + seq![
                view[best as int],
            ]);
            assert((entries_view(sorted@) + seq![view[best as int]]) + sorted_by_value(
                view.remove(best as int),
            ) =~= entries_view(sorted@) + (seq![view[best as int]] + sorted_by_value(
                view.remove(best as int),
            )));
        }
        sorted.push(entry);
    }
    assert(sorted_by_value(entries_view(left@)) =~= Seq::empty());
    assert(entries_view(sorted@) + Seq::<(OutPointView, UTXOValueView)>::empty()
        =~= entries_view(sorted@));
    sorted
}

/// The inputs that pay `total_value` out of the unspent outputs
/// `active_wallet_utxo`, and the sum of their values: outputs are taken in
/// their order until the sum has reached `total_value`.
pub fn calculate_inputs(active_wallet_utxo: &[(OutPoint, UTXOValue)], total_value: u64) -> (r: (
    Vec<OutPoint>,
    u64,
))
    requires
        crate::states::utxo_state::total_value(entries_view(active_wallet_utxo@)) <= u64::MAX,
    ensures
        crate::messages::transaction::outpoints_view(r.0@) == entry_outpoints(
            entries_view(active_wallet_utxo@).take(
                inputs_needed(entries_view(active_wallet_utxo@), total_value as int) as int,
            ),
        ),
        r.1 == crate::states::utxo_state::total_value(
            entries_view(active_wallet_utxo@).take(
                inputs_needed(entries_view(active_wallet_utxo@), total_value as int) as int,
            ),
        ),
{
    let ghost entries = entries_view(active_wallet_utxo@);
    let mut inputs: Vec<OutPoint> = Vec::new();
    let mut total_input_value: u64 = 0;
    let mut i: usize = 0;
    let mut done = false;
    assert(entries.skip(0) =~= entries);
    assert(crate::messages::transaction::outpoints_view(inputs@) =~= entry_outpoints(
        entries.take(0),
    ));
    while i < active_wallet_utxo.len() && !done
        invariant
            i <= active_wallet_utxo@.len(),
            entries == entries_view(active_wallet_utxo@),
            crate::states::utxo_state::total_value(entries) <= u64::MAX,
            crate::messages::transaction::outpoints_view(inputs@) == entry_outpoints(
                entries.take(i as int),
            ),
            total_input_value == crate::states::utxo_state::total_value(entries.take(i as int)),
            !done ==> inputs_needed(entries, total_value as int) == i + inputs_needed(
                entries.skip(i as int),
                total_value - total_input_value,
            ),
            done ==> inputs_needed(entries, total_value as int) == i,
        decreases active_wallet_utxo@.len() - i + if done { 0int } else { 1int },
    {
        proof {
            let rest = entries.skip(i as int);
            assert(rest[0] == entries[i as int]);
            assert(rest.drop_first() =~= entries.skip(i + 1));
            let next = entries.take(i + 1);
            assert(next.drop_last() =~= entries.take(i as int));
            assert(next.last() == entries[i as int]);
            assert(entries =~= next + entries.skip(i + 1));
            lemma_total_value_concat(next, entries.skip(i + 1));
        }
        let entry = &active_wallet_utxo[i];
        let outpoint = entry.0.duplicate();
        proof {
            assert(crate::messages::transaction::outpoints_view(inputs@.push(outpoint))
                =~= crate::messages::transaction::outpoints_view(inputs@).push(outpoint@));
            assert(entry_outpoints(entries.take(i + 1)) =~= entry_outpoints(
                entries.take(i as int),
            ).push(entries[i as int].0));
        }
        inputs.push(outpoint);
        let reached = entry.1.tx_out.value as u128 + total_input_value as u128
            >= total_value as u128;
        total_input_value = total_input_value + entry.1.tx_out.value;
        i = i + 1;
        if reached {
            done = true;
        }
    }
    (inputs, total_input_value)
}

} // verus!
