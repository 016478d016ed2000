//! Extraction of transactions for a block, and what follows when a block
//! is committed.

use vstd::prelude::*;
use crate::txpool::pool::Pool;
use crate::txpool::removal::{
    gone, holds_removed, holds_tx, lemma_gone_compose, lemma_gone_one, lemma_pruned_refl,
    lemma_pruned_step, pruned,
};
use crate::txpool::selection::{better, fits, is_executable, Constraints};
use crate::txpool::spent_inputs::{noted_for, notes_with, notes_without, spent_by, SpentKey};
use crate::txpool::storage::{
    holds_id, lemma_slot_of, live, slots_wf, tx_id_to_storage_id, unlinked, vec_contains, weight,
    Slots,
};
use crate::txpool::types::{lemma_push_contains, Input, PoolTx, StorageIndex, TxId};

verus! {

/// Sum of measure `k` over the transactions `txs`.
pub open spec fn seq_weight(txs: Seq<PoolTx>, k: int) -> int
    decreases txs.len(),
{
    if txs.len() == 0 {
        0
    } else {
        seq_weight(txs.drop_last(), k) + weight(txs.last(), k)
    }
}

/// What is left of the budget `whole` once `txs` are taken.
pub open spec fn leftover(whole: Constraints, txs: Seq<PoolTx>) -> Constraints {
    Constraints {
        max_gas: (whole.max_gas - seq_weight(txs, 1)) as u64,
        maximum_block_size: (whole.maximum_block_size - seq_weight(txs, 2)) as u64,
        maximum_txs: (whole.maximum_txs - txs.len()) as u16,
    }
}

/// The memory of spent keys once each of `txs` has spent its inputs, in
/// their order.
pub open spec fn spent_after(s: Seq<SpentKey>, txs: Seq<PoolTx>, capacity: int) -> Seq<SpentKey>
    decreases txs.len(),
{
    if txs.len() == 0 {
        s
    } else {
        spent_by(
            spent_after(s, txs.drop_last(), capacity),
            txs.last().id,
            txs.last().inputs@,
            capacity,
        )
    }
}

/// The extracted outputs once each of `txs` is noted, in their order.
pub open spec fn extracted_after(outputs: Seq<(TxId, usize)>, txs: Seq<PoolTx>) -> Seq<
    (TxId, usize),
>
    decreases txs.len(),
{
    if txs.len() == 0 {
        outputs
    } else {
        extracted_after(outputs, txs.drop_last()).push(
            (txs.last().id, txs.last().outputs@.len() as usize),
        )
    }
}

/// The notes of tentative spends once each of `txs` has noted its inputs,
/// in their order.
pub open spec fn notes_after(notes: Seq<(TxId, Input)>, txs: Seq<PoolTx>) -> Seq<(TxId, Input)>
    decreases txs.len(),
{
    if txs.len() == 0 {
        notes
    } else {
        notes_with(
            notes_after(notes, txs.drop_last()),
            txs.last().id,
            txs.last().inputs@,
            txs.last().inputs@.len() as int,
        )
    }
}

/// The transaction that leaves the pool at the `n`-th of the committed
/// identifiers `ids`: the one that `s0` holds under that identifier, unless
/// the identifier came before.
pub open spec fn committed_tx(s0: Slots, ids: Seq<TxId>, n: int) -> Option<PoolTx> {
    let id = ids[n - 1];
    if holds_id(s0, id) && !ids.subrange(0, n - 1).contains(id) {
        Some(s0[tx_id_to_storage_id(s0)[id] as int].unwrap().transaction)
    } else {
        None
    }
}

/// The notes of tentative spends once the first `n` of `ids` are committed:
/// what was noted for them is forgotten.
pub open spec fn notes_committed(s0: Slots, ids: Seq<TxId>, n: int, notes: Seq<(TxId, Input)>) -> Seq<
    (TxId, Input),
>
    decreases n,
{
    if n <= 0 {
        notes
    } else {
        let before = notes_committed(s0, ids, n - 1, notes);
        let forgotten = notes_without(before, ids[n - 1], before.len() as int);
        if committed_tx(s0, ids, n) is Some {
            notes_without(forgotten, ids[n - 1], forgotten.len() as int)
        } else {
            forgotten
        }
    }
}

/// The memory of spent keys once the first `n` of `ids` are committed: for
/// each in turn, what was noted for it is spent for good, and where the
/// pool held the transaction, so are its inputs.
pub open spec fn spent_committed(
    s0: Slots,
    ids: Seq<TxId>,
    n: int,
    spent: Seq<SpentKey>,
    notes: Seq<(TxId, Input)>,
    capacity: int,
) -> Seq<SpentKey>
    decreases n,
{
    if n <= 0 {
        spent
    } else {
        let id = ids[n - 1];
        let before = spent_committed(s0, ids, n - 1, spent, notes, capacity);
        let notes_before = notes_committed(s0, ids, n - 1, notes);
        let noted = noted_for(notes_before, id, notes_before.len() as int);
        let confirmed = if noted.len() == 0 {
            before
        } else {
            spent_by(before, id, noted, capacity)
        };
        match committed_tx(s0, ids, n) {
            Some(tx) => spent_by(confirmed, id, tx.inputs@, capacity),
            None => confirmed,
        }
    }
}

/// The extracted outputs once the first `n` of `ids` are committed: the
/// outputs of each transaction that the pool held are noted.
pub open spec fn extracted_committed(
    s0: Slots,
    ids: Seq<TxId>,
    n: int,
    outputs: Seq<(TxId, usize)>,
) -> Seq<(TxId, usize)>
    decreases n,
{
    if n <= 0 {
        outputs
    } else {
        let before = extracted_committed(s0, ids, n - 1, outputs);
        match committed_tx(s0, ids, n) {
            Some(tx) => before.push((tx.id, tx.outputs@.len() as usize)),
            None => before,
        }
    }
}

/// Whether slot `i` holds the transaction that goes into the block next:
/// an executable one that fits into `left`, and the best of those.
pub open spec fn selects(s: Slots, left: Constraints, i: int) -> bool {
    &&& is_executable(s, i)
    &&& fits(s[i].unwrap().transaction, left)
    &&& forall|j: int|
        is_executable(s, j) && j != i && fits((#[trigger] s[j]).unwrap().transaction, left)
            ==> better(s[i].unwrap().transaction, s[j].unwrap().transaction)
}

/// One step of an extraction: `t` is selected from `s` under `left`, and
/// `s2` is `s` without its entry.
pub open spec fn extraction_step(s: Slots, s2: Slots, left: Constraints, t: PoolTx) -> bool {
    exists|i: int| #[trigger]
        selects(s, left, i) && s[i].unwrap().transaction == t && unlinked(s, s2, i)
}

/// `txs` were extracted one after the other under the budget `whole`, and
/// `states` are the storages before, between and after the steps.
pub open spec fn extraction_trace(states: Seq<Slots>, whole: Constraints, txs: Seq<PoolTx>) -> bool {
    &&& states.len() == txs.len() + 1
    &&& forall|y: int|
        0 <= y < txs.len() ==> extraction_step(
            #[trigger] states[y],
            states[y + 1],
            leftover(whole, txs.subrange(0, y)),
            txs[y],
        )
}

/// Whether `after` has a member that `before` lacks.
pub fn any_new(after: &Vec<StorageIndex>, before: &Vec<StorageIndex>) -> (found: bool)
    ensures
        found == exists|i: StorageIndex| #[trigger] after@.contains(i) && !before@.contains(i),
{
    let mut x: usize = 0;
    while x < after.len()
        invariant
            x <= after.len(),
            forall|y: int| 0 <= y < x ==> before@.contains(#[trigger] after@[y]),
        decreases after.len() - x,
    {
        if !vec_contains(before, after[x]) {
            proof {
                assert(after@.contains(after@[x as int]));
            }
            return true;
        }
        x += 1;
    }
    proof {
        if exists|i: StorageIndex| #[trigger] after@.contains(i) && !before@.contains(i) {
            let i = choose|i: StorageIndex| #[trigger] after@.contains(i) && !before@.contains(i);
            let y = choose|y: int| 0 <= y < after@.len() && after@[y] == i;
            assert(before@.contains(after@[y]));
        }
    }
    false
}

impl Pool {
    /// Extract transactions for a block: again and again the best executable
    /// transaction that still fits into the budget leaves the pool, which
    /// makes the transactions that waited for it alone executable. Every
    /// extracted transaction is noted as tentatively spent, and its outputs
    /// as extracted.
    pub fn extract_transactions_for_block(&mut self, constraints: Constraints) -> (txs: Vec<PoolTx>)
        requires
            old(self).wf(),
        ensures
            final(self).wf(),
            final(self).config == old(self).config,
            pruned(old(self).storage@, final(self).storage@),
            holds_removed(old(self).storage@, final(self).storage@, txs@),
            seq_weight(txs@, 1) <= constraints.max_gas,
            seq_weight(txs@, 2) <= constraints.maximum_block_size,
            txs@.len() <= constraints.maximum_txs,
            final(self).current_txs() == old(self).current_txs() - txs@.len(),
            forall|i: int|
                is_executable(final(self).storage@, i) ==> !fits(
                    (#[trigger] final(self).storage@[i]).unwrap().transaction,
                    leftover(constraints, txs@),
                ),
            exists|states: Seq<Slots>| #[trigger]
                extraction_trace(states, constraints, txs@) && states[0] == old(self).storage@
                    && states.last() == final(self).storage@,
            forall|y: int, output: u16|
                0 <= y < txs@.len() && output < (#[trigger] txs@[y]).outputs@.len()
                    ==> #[trigger] final(self).extracted_outputs.spec_contains(txs@[y].id, output),
            forall|id: TxId, output: u16|
                old(self).extracted_outputs.spec_contains(id, output)
                    ==> final(self).extracted_outputs.spec_contains(id, output),
            txs@.len() > 0 ==> final(self).spent_inputs.spec_is_spent_tx(txs@.last().id),
            final(self).spent_inputs.spent@ == spent_after(
                old(self).spent_inputs.spent@,
                txs@,
                old(self).spent_inputs.capacity as int,
            ),
            final(self).extracted_outputs.outputs@ == extracted_after(
                old(self).extracted_outputs.outputs@,
                txs@,
            ),
            final(self).spent_inputs.spender_of_inputs@ == notes_after(
                old(self).spent_inputs.spender_of_inputs@,
                txs@,
            ),
    {
        let ghost s0 = self.storage@;
        let ghost states: Seq<Slots> = seq![s0];
        let mut left = constraints;
        let mut txs: Vec<PoolTx> = Vec::new();
        let mut going: bool = true;
        proof {
            lemma_pruned_refl(s0);
            assert forall|t: PoolTx| !gone(s0, s0, t) by {
                if holds_tx(s0, t) {
                    let j = choose|j: int| live(s0, j) && (#[trigger] s0[j]).unwrap().transaction == t;
                    assert(s0[j].unwrap().transaction.id == t.id);
                }
            }
        }
        while going
            invariant
                self.wf(),
                slots_wf(s0),
                self.config == old(self).config,
                pruned(s0, self.storage@),
                forall|t: PoolTx| #[trigger] txs@.contains(t) <==> gone(s0, self.storage@, t),
                left.max_gas + seq_weight(txs@, 1) == constraints.max_gas,
                left.maximum_block_size + seq_weight(txs@, 2) == constraints.maximum_block_size,
                left.maximum_txs + txs@.len() == constraints.maximum_txs,
                self.current_txs() == old(self).current_txs() - txs@.len(),
                extraction_trace(states, constraints, txs@),
                states[0] == s0,
                states.last() == self.storage@,
                forall|y: int, output: u16|
                    0 <= y < txs@.len() && output < (#[trigger] txs@[y]).outputs@.len()
                        ==> #[trigger] self.extracted_outputs.spec_contains(txs@[y].id, output),
                forall|id: TxId, output: u16|
                    old(self).extracted_outputs.spec_contains(id, output)
                        ==> self.extracted_outputs.spec_contains(id, output),
                txs@.len() > 0 ==> self.spent_inputs.spec_is_spent_tx(txs@.last().id),
                self.spent_inputs.capacity == old(self).spent_inputs.capacity,
                self.spent_inputs.spent@ == spent_after(
                    old(self).spent_inputs.spent@,
                    txs@,
                    old(self).spent_inputs.capacity as int,
                ),
                self.extracted_outputs.outputs@ == extracted_after(
                    old(self).extracted_outputs.outputs@,
                    txs@,
                ),
                self.spent_inputs.spender_of_inputs@ == notes_after(
                    old(self).spent_inputs.spender_of_inputs@,
                    txs@,
                ),
                !going ==> forall|i: int|
                    is_executable(self.storage@, i) ==> !fits(
                        (#[trigger] self.storage@[i]).unwrap().transaction,
                        left,
                    ),
            decreases self.current_txs() + (if going { 1int } else { 0int }),
        {
            match self.selection_algorithm.best_executable(&self.storage, &left) {
                None => {
                    going = false;
                },
                Some(index) => {
                    let ghost s1 = self.storage@;
                    let ghost before = txs@;
                    let entry = self.remove_entry(index);
                    proof {
                        let s2 = self.storage@;
                        lemma_gone_one(s1, s2, index as int);
                        lemma_gone_compose(s0, s1, s2);
                        lemma_push_contains(before, entry.transaction);
                        assert(before.push(entry.transaction).drop_last() =~= before);
                        let after = before.push(entry.transaction);
                        let longer = states.push(s2);
                        assert(selects(s1, left, index as int));
                        assert(left == leftover(constraints, before));
                        assert forall|y: int| 0 <= y < after.len() implies extraction_step(
                            #[trigger] longer[y],
                            longer[y + 1],
                            leftover(constraints, after.subrange(0, y)),
                            after[y],
                        ) by {
                            if y < before.len() {
                                assert(after.subrange(0, y) =~= before.subrange(0, y));
                                assert(extraction_step(
                                    states[y],
                                    states[y + 1],
                                    leftover(constraints, before.subrange(0, y)),
                                    before[y],
                                ));
                            } else {
                                assert(after.subrange(0, y) =~= before);
                            }
                        }
                        states = longer;
                    }
                    self.extracted_outputs.new_extracted_transaction(&entry.transaction);
                    self.spent_inputs.maybe_spend_inputs(
                        entry.transaction.id,
                        &entry.transaction.inputs,
                    );
                    left =
                    Constraints {
                        max_gas: left.max_gas - entry.transaction.max_gas,
                        maximum_block_size: left.maximum_block_size
                            - entry.transaction.metered_bytes_size,
                        maximum_txs: left.maximum_txs - 1,
                    };
                    txs.push(entry.transaction);
                },
            }
        }
        proof {
            assert(left == leftover(constraints, txs@));
        }
        txs
    }

    /// Process committed transactions: each one that is pooled leaves alone,
    /// its dependents stay and become executable where they waited for
    /// nothing else. The inputs of each are spent for good and its outputs
    /// noted as extracted. Tells whether a transaction became executable.
    pub fn process_committed_transactions(&mut self, tx_ids: &Vec<TxId>) -> (promoted: bool)
        requires
            old(self).wf(),
        ensures
            final(self).wf(),
            final(self).config == old(self).config,
            pruned(old(self).storage@, final(self).storage@),
            forall|j: int|
                live(final(self).storage@, j) <==> (live(old(self).storage@, j) && !tx_ids@.contains(
                    (#[trigger] old(self).storage@[j]).unwrap().transaction.id,
                )),
            promoted == exists|i: int|
                is_executable(final(self).storage@, i) && !(#[trigger] is_executable(
                    old(self).storage@,
                    i,
                )),
            forall|id: TxId|
                #[trigger] tx_ids@.contains(id) && holds_id(old(self).storage@, id)
                    ==> final(self).extracted_outputs.knows(id),
            forall|id: TxId|
                old(self).extracted_outputs.knows(id)
                    ==> #[trigger] final(self).extracted_outputs.knows(id),
            final(self).spent_inputs.spent@ == spent_committed(
                old(self).storage@,
                tx_ids@,
                tx_ids@.len() as int,
                old(self).spent_inputs.spent@,
                old(self).spent_inputs.spender_of_inputs@,
                old(self).spent_inputs.capacity as int,
            ),
            final(self).spent_inputs.spender_of_inputs@ == notes_committed(
                old(self).storage@,
                tx_ids@,
                tx_ids@.len() as int,
                old(self).spent_inputs.spender_of_inputs@,
            ),
            final(self).extracted_outputs.outputs@ == extracted_committed(
                old(self).storage@,
                tx_ids@,
                tx_ids@.len() as int,
                old(self).extracted_outputs.outputs@,
            ),
    {
        let ghost s0 = self.storage@;
        let before = self.selection_algorithm.get_less_worth_txs(&self.storage);
        proof {
            lemma_pruned_refl(s0);
        }
        let mut x: usize = 0;
        while x < tx_ids.len()
            invariant
                x <= tx_ids.len(),
                self.wf(),
                slots_wf(s0),
                self.config == old(self).config,
                pruned(s0, self.storage@),
                forall|j: int|
                    live(self.storage@, j) <==> (live(s0, j) && !tx_ids@.subrange(
                        0,
                        x as int,
                    ).contains((#[trigger] s0[j]).unwrap().transaction.id)),
                forall|id: TxId|
                    #[trigger] tx_ids@.subrange(0, x as int).contains(id) && holds_id(s0, id)
                        ==> self.extracted_outputs.knows(id),
                forall|id: TxId|
                    old(self).extracted_outputs.knows(id) ==> #[trigger] self.extracted_outputs.knows(
                        id,
                    ),
                self.spent_inputs.capacity == old(self).spent_inputs.capacity,
                self.spent_inputs.spent@ == spent_committed(
                    s0,
                    tx_ids@,
                    x as int,
                    old(self).spent_inputs.spent@,
                    old(self).spent_inputs.spender_of_inputs@,
                    old(self).spent_inputs.capacity as int,
                ),
                self.spent_inputs.spender_of_inputs@ == notes_committed(
                    s0,
                    tx_ids@,
                    x as int,
                    old(self).spent_inputs.spender_of_inputs@,
                ),
                self.extracted_outputs.outputs@ == extracted_committed(
                    s0,
                    tx_ids@,
                    x as int,
                    old(self).extracted_outputs.outputs@,
                ),
            decreases tx_ids.len() - x,
        {
            let id: TxId = tx_ids[x];
            let ghost s1 = self.storage@;
            let ghost known = self.extracted_outputs;
            self.spent_inputs.spend_inputs_by_tx_id(id);
            proof {
                assert(tx_ids@.subrange(0, x + 1) =~= tx_ids@.subrange(0, x as int).push(id));
                lemma_push_contains(tx_ids@.subrange(0, x as int), id);
            }
            match self.find(id) {
                Some(index) => {
                    let entry = self.remove_entry(index);
                    proof {
                        lemma_pruned_step(s0, s1, self.storage@, index as int);
                        assert forall|j: int|
                            live(s1, j) && s1[j].unwrap().transaction.id == id implies j
                            == index by {}
                        assert(live(s0, index as int) && s0[index as int].unwrap().transaction
                            == entry.transaction);
                        lemma_slot_of(s0, index as int);
                        assert(!tx_ids@.subrange(0, x as int).contains(id));
                        assert(committed_tx(s0, tx_ids@, x + 1) == Some(entry.transaction));
                    }
                    self.extracted_outputs.new_extracted_transaction(&entry.transaction);
                    proof {
                        let n = entry.transaction.outputs@.len() as usize;
                        lemma_push_contains(known.outputs@, (id, n));
                        assert(self.extracted_outputs.outputs@.contains((id, n)));
                        assert forall|other: TxId| known.knows(other) implies #[trigger] self.extracted_outputs.knows(
                            other,
                        ) by {
                            let m = choose|m: usize| #[trigger] known.outputs@.contains((other, m));
                            assert(self.extracted_outputs.outputs@.contains((other, m)));
                        }
                    }
                    self.spent_inputs.spend_inputs(id, &entry.transaction.inputs);
                },
                None => {
                    proof {
                        if holds_id(s0, id) {
                            let j = choose|j: int|
                                live(s0, j) && (#[trigger] s0[j]).unwrap().transaction.id == id;
                            assert(!live(s1, j));
                            assert(tx_ids@.subrange(0, x as int).contains(id));
                        }
                        assert(committed_tx(s0, tx_ids@, x + 1) is None);
                    }
                },
            }
            x += 1;
        }
        proof {
            assert(tx_ids@.subrange(0, tx_ids@.len() as int) =~= tx_ids@);
        }
        let promoted = any_new(&self.selection_algorithm.executable, &before);
        proof {
            let s2 = self.storage@;
            if promoted {
                let i = choose|i: StorageIndex| #[trigger]
                    self.selection_algorithm@.contains(i) && !before@.contains(i);
                assert(is_executable(s2, i as int) && !is_executable(s0, i as int));
            }
            if exists|i: int| is_executable(s2, i) && !(#[trigger] is_executable(s0, i)) {
                let i = choose|i: int| is_executable(s2, i) && !(#[trigger] is_executable(s0, i));
                assert(self.selection_algorithm@.contains(i as usize));
                assert(!before@.contains(i as usize));
            }
        }
        promoted
    }
}

} // verus!
