//! The pool: its parts, its invariant, and how a transaction enters and
//! leaves all of them at once.

use std::collections::HashMap;
use vstd::prelude::*;
use crate::txpool::collision_manager::{holders_with_tx, holders_without, CollisionManager};
use crate::txpool::extracted_outputs::ExtractedOutputs;
use crate::txpool::removal::holds_tx;
use crate::txpool::selection::{is_executable, SelectionAlgorithm};
use crate::txpool::spent_inputs::SpentInputs;
use crate::txpool::storage::{
    entry_wf, holds_id, lemma_count_bounded, lemma_id_map_size, lemma_slot_of, lemma_sum_bounds,
    lemma_sum_diff, live, same_node, stored, subtree_sum, total, tx_id_to_storage_id, unlinked,
    unlinked_node, vec_contains, weight, Slots, Storage, StorageEntry,
};
use crate::txpool::types::{lemma_push_contains, Input, PoolTx, ResourceKey, StorageIndex, TxId};

verus! {

/// The running totals of a pool, as published to observers.
#[derive(Clone, Copy, Debug, Default, PartialEq, Eq, Structural)]
pub struct TxPoolStats {
    pub tx_count: u64,
    pub total_size: u64,
    pub total_gas: u64,
}

/// The budgets of a pool.
#[derive(Clone, Copy, Debug, PartialEq, Eq, Structural)]
pub struct PoolLimits {
    pub max_gas: u64,
    pub max_bytes_size: u64,
    pub max_txs: usize,
}

pub struct Config {
    /// Whether inputs must exist in the persistent state.
    pub utxo_validation: bool,
    pub pool_limits: PoolLimits,
    /// Inputs that no admitted transaction may spend.
    pub black_list: Vec<Input>,
}

pub struct Pool {
    pub config: Config,
    pub storage: Storage,
    pub collision_manager: CollisionManager,
    pub selection_algorithm: SelectionAlgorithm,
    /// Outputs of the transactions that left for a block.
    pub extracted_outputs: ExtractedOutputs,
    /// What recent transactions have spent.
    pub spent_inputs: SpentInputs,
    /// Gas of all stored transactions.
    pub current_gas: u128,
    /// Size in bytes of all stored transactions.
    pub current_bytes_size: u128,
    /// Mapping from the identifier of each stored transaction to its slot.
    pub tx_id_to_storage_id: HashMap<TxId, StorageIndex>,
}

/// A sequence without a member is empty.
pub proof fn lemma_no_member_is_empty(v: Seq<StorageIndex>)
    requires
        forall|d: StorageIndex| !(#[trigger] v.contains(d)),
    ensures
        v.len() == 0,
{
    if v.len() > 0 {
        assert(v.contains(v[0]));
    }
}

impl Pool {
    /// The invariant of a pool: the storage is well formed, both indices
    /// list exactly what the storage holds, and the totals are the sums over
    /// the stored transactions.
    pub open spec fn wf(&self) -> bool {
        &&& self.storage.wf()
        &&& self.collision_manager.wf_for(self.storage@)
        &&& self.selection_algorithm.wf_for(self.storage@)
        &&& self.current_gas == total(self.storage@, 1)
        &&& self.current_bytes_size == total(self.storage@, 2)
        &&& self.tx_id_to_storage_id@ == tx_id_to_storage_id(self.storage@)
        &&& self.spent_inputs.wf()
    }

    /// Create a new pool.
    pub fn new(config: Config) -> (pool: Pool)
        ensures
            pool.wf(),
            pool.config == config,
            pool.storage@.len() == 0,
            pool.current_txs() == 0,
            pool.spent_inputs.capacity == if config.pool_limits.max_txs == usize::MAX {
                usize::MAX
            } else {
                (config.pool_limits.max_txs + 1) as usize
            },
            pool.spent_inputs.spent@.len() == 0,
            pool.extracted_outputs.outputs@.len() == 0,
    {
        let capacity: usize = config.pool_limits.max_txs.saturating_add(1);
        let pool = Pool {
            extracted_outputs: ExtractedOutputs::new(),
            spent_inputs: SpentInputs::new(capacity),
            config,
            storage: Storage::new(),
            collision_manager: CollisionManager::new(),
            selection_algorithm: SelectionAlgorithm::new(),
            current_gas: 0,
            current_bytes_size: 0,
            tx_id_to_storage_id: HashMap::new(),
        };
        proof {
            assert forall|key: ResourceKey, i: StorageIndex| #[trigger]
                pool.collision_manager@.contains((key, i)) <==> (live(pool.storage@, i as int)
                    && pool.storage@[i as int].unwrap().transaction.has_resource(key)) by {}
            assert(pool.tx_id_to_storage_id@ =~= tx_id_to_storage_id(pool.storage@));
        }
        pool
    }

    /// The number of stored transactions: the size of the map from
    /// identifiers to slots.
    pub open spec fn current_txs(&self) -> nat {
        self.tx_id_to_storage_id@.len()
    }

    /// Returns the number of transactions in the pool.
    pub fn tx_count(&self) -> (count: usize)
        ensures
            count == self.current_txs(),
    {
        self.tx_id_to_storage_id.len()
    }

    /// The slot of the transaction `id`.
    pub fn find(&self, id: TxId) -> (found: Option<StorageIndex>)
        requires
            self.wf(),
        ensures
            found.is_some() == holds_id(self.storage@, id),
            found.is_some() ==> live(self.storage@, found.unwrap() as int) && self.storage@[found.unwrap() as int].unwrap().transaction.id
                == id,
    {
        match self.tx_id_to_storage_id.get(&id) {
            Some(index) => Some(*index),
            None => None,
        }
    }

    /// Takes the entry in slot `index` out of the storage, the indices and
    /// the totals. Entries that waited for it alone become executable.
    pub fn remove_entry(&mut self, index: StorageIndex) -> (removed: StorageEntry)
        requires
            old(self).wf(),
            live(old(self).storage@, index as int),
        ensures
            final(self).wf(),
            final(self).config == old(self).config,
            final(self).spent_inputs == old(self).spent_inputs,
            final(self).extracted_outputs == old(self).extracted_outputs,
            unlinked(old(self).storage@, final(self).storage@, index as int),
            removed == old(self).storage@[index as int].unwrap(),
            final(self).current_txs() == old(self).current_txs() - 1,
            final(self).collision_manager@ == holders_without(
                old(self).collision_manager@,
                index,
                old(self).collision_manager@.len() as int,
            ),
    {
        let ghost s0 = self.storage@;
        let gone = self.storage.remove_transaction(index).unwrap();
        let ghost t = self.storage@;
        proof {
            let n = s0.len() as int;
            assert forall|k: int| 0 <= k < 4 implies total(t, k) == total(s0, k) - weight(
                gone.transaction,
                k,
            ) && weight(gone.transaction, k) <= total(s0, k) by {
                assert forall|x: int| 0 <= x < n && x != index implies #[trigger] term_all(s0, k, x)
                    == term_all(t, k, x) by {
                    assert(unlinked_node(s0, t[x], x, index as int));
                }
                lemma_sum_diff(s0, t, true, 0, 0, k, index as int, n);
                lemma_sum_bounds(s0, true, 0, k, index as int, n);
            }
            assert(total(t, 1) == total(s0, 1) - weight(gone.transaction, 1));
            assert(total(t, 2) == total(s0, 2) - weight(gone.transaction, 2));
            assert(total(t, 3) == total(s0, 3) - weight(gone.transaction, 3));
        }
        self.current_gas = self.current_gas - gone.transaction.max_gas as u128;
        self.current_bytes_size = self.current_bytes_size - gone.transaction.metered_bytes_size as u128;
        let previous = self.tx_id_to_storage_id.remove(&gone.transaction.id);
        proof {
            assert(entry_wf(s0, index as int));
            assert(self.tx_id_to_storage_id@ =~= tx_id_to_storage_id(t)) by {
                assert forall|id: TxId|
                    tx_id_to_storage_id(t).dom().contains(id) <==> (tx_id_to_storage_id(
                        s0,
                    ).dom().contains(id) && id != gone.transaction.id) by {
                    if holds_id(t, id) {
                        let j = choose|j: int|
                            live(t, j) && (#[trigger] t[j]).unwrap().transaction.id == id;
                        assert(unlinked_node(s0, t[j], j, index as int));
                        assert(live(s0, j) && s0[j].unwrap().transaction.id == id);
                    }
                    if holds_id(s0, id) && id != gone.transaction.id {
                        let j = choose|j: int|
                            live(s0, j) && (#[trigger] s0[j]).unwrap().transaction.id == id;
                        assert(unlinked_node(s0, t[j], j, index as int));
                        assert(live(t, j) && t[j].unwrap().transaction.id == id);
                    }
                }
                assert forall|id: TxId| #[trigger]
                    tx_id_to_storage_id(t).dom().contains(id) implies tx_id_to_storage_id(t)[id]
                    == tx_id_to_storage_id(s0)[id] by {
                    let j = choose|j: int|
                        live(t, j) && (#[trigger] t[j]).unwrap().transaction.id == id;
                    assert(unlinked_node(s0, t[j], j, index as int));
                    lemma_slot_of(s0, j);
                    lemma_slot_of(t, j);
                }
            }
            lemma_id_map_size(s0);
            lemma_id_map_size(t);
        }
        self.collision_manager.on_removed_transaction(index);
        proof {
            assert forall|key: ResourceKey, i: StorageIndex| #[trigger]
                self.collision_manager@.contains((key, i)) <==> (live(t, i as int) && t[i as int].unwrap().transaction.has_resource(
                    key,
                )) by {
                if i != index && i < t.len() {
                    assert(unlinked_node(s0, t[i as int], i as int, index as int));
                }
            }
        }
        let ghost sel0 = self.selection_algorithm@;
        self.selection_algorithm.on_removed_transaction(index);
        let ghost sel1 = self.selection_algorithm@;
        proof {
            assert forall|i: StorageIndex| #[trigger] sel1.contains(i) implies is_executable(
                t,
                i as int,
            ) by {
                assert(sel0.contains(i));
                assert(is_executable(s0, i as int));
                assert(unlinked_node(s0, t[i as int], i as int, index as int));
                lemma_no_member_is_empty(s0[i as int].unwrap().dependencies@);
                assert forall|d: StorageIndex| !(#[trigger] t[i as int].unwrap().dependencies@.contains(d)) by {
                    if t[i as int].unwrap().dependencies@.contains(d) {
                        assert(s0[i as int].unwrap().dependencies@.contains(d));
                        assert(s0[i as int].unwrap().dependencies@.len() > 0);
                    }
                }
                lemma_no_member_is_empty(t[i as int].unwrap().dependencies@);
            }
        }
        let len: usize = self.storage.entries.len();
        let mut j: usize = 0;
        while j < len
            invariant
                j <= len,
                len == t.len(),
                self.storage@ == t,
                self.storage.wf(),
                self.config == old(self).config,
                self.spent_inputs == old(self).spent_inputs,
                self.extracted_outputs == old(self).extracted_outputs,
                self.collision_manager.wf_for(t),
                self.collision_manager@ == holders_without(
                    old(self).collision_manager@,
                    index,
                    old(self).collision_manager@.len() as int,
                ),
                self.current_gas == total(t, 1),
                self.current_bytes_size == total(t, 2),
                self.tx_id_to_storage_id@ == tx_id_to_storage_id(t),
                self.current_txs() == old(self).current_txs() - 1,
                self.selection_algorithm@.no_duplicates(),
                forall|i: StorageIndex| #[trigger]
                    self.selection_algorithm@.contains(i) <==> (sel1.contains(i) || (i < j
                        && is_executable(t, i as int))),
                forall|i: StorageIndex| #[trigger] sel1.contains(i) ==> is_executable(t, i as int),
            decreases len - j,
        {
            let waits: bool = self.storage.has_dependencies(j);
            let is_live: bool = self.storage.get(j).is_some();
            if is_live && !waits && !vec_contains(&self.selection_algorithm.executable, j) {
                proof {
                    lemma_push_contains(self.selection_algorithm@, j);
                }
                self.selection_algorithm.new_executable_transaction(j);
            }
            j += 1;
        }
        gone
    }

    /// Puts `tx` with the dependencies `deps` into the storage, the indices
    /// and the totals.
    pub fn store_entry(&mut self, tx: PoolTx, deps: Vec<StorageIndex>, creation_instant: u64) -> (index:
        StorageIndex)
        requires
            old(self).wf(),
            Storage::accepts(old(self).storage@, tx, deps@),
        ensures
            final(self).wf(),
            final(self).config == old(self).config,
            final(self).spent_inputs == old(self).spent_inputs,
            final(self).extracted_outputs == old(self).extracted_outputs,
            stored(old(self).storage@, final(self).storage@, index as int, tx, deps@),
            final(self).storage@[index as int].unwrap().creation_instant == creation_instant,
            final(self).current_txs() == old(self).current_txs() + 1,
            forall|j: int| 0 <= j < index ==> live(old(self).storage@, j),
            final(self).collision_manager@ == holders_with_tx(
                old(self).collision_manager@,
                index,
                tx,
            ),
    {
        let ghost s0 = self.storage@;
        let is_root: bool = deps.len() == 0;
        let id: TxId = tx.id;
        let gas: u64 = tx.max_gas;
        let bytes: u64 = tx.metered_bytes_size;
        let index = self.storage.store_transaction(tx, deps, creation_instant);
        let ghost t = self.storage@;
        proof {
            let n = s0.len() as int;
            let m = t.len() as int;
            assert forall|k: int| 0 <= k < 4 implies total(t, k) == total(s0, k) + weight(tx, k)
                && total(s0, k) <= n * 0xffff_ffff_ffff_ffff by {
                assert forall|x: int| 0 <= x < n && x != index implies #[trigger] term_all(s0, k, x)
                    == term_all(t, k, x) by {
                    assert(same_node(s0, t[x], x));
                }
                lemma_sum_diff(s0, t, true, 0, 0, k, index as int, n);
                lemma_sum_bounds(s0, true, 0, k, 0, n);
                if index < n {
                    assert(term_all(s0, k, index as int) == 0);
                } else {
                    assert(sum_all(t, k, m) == sum_all(t, k, n) + term_all(t, k, n));
                }
            }
            assert(total(t, 1) == total(s0, 1) + weight(tx, 1));
            assert(total(t, 2) == total(s0, 2) + weight(tx, 2));
            assert(total(t, 3) == total(s0, 3) + weight(tx, 3));
            lemma_count_bounded(t, true, 0, m);
            assert(n * 0xffff_ffff_ffff_ffff + 0xffff_ffff_ffff_ffff
                <= 0xffff_ffff_ffff_ffff_ffff_ffff_ffff_ffff) by (nonlinear_arith)
                requires
                    n <= 0xffff_ffff_ffff_ffff,
            ;
        }
        self.current_gas = self.current_gas + gas as u128;
        self.current_bytes_size = self.current_bytes_size + bytes as u128;
        let previous = self.tx_id_to_storage_id.insert(id, index);
        proof {
            assert(self.tx_id_to_storage_id@ =~= tx_id_to_storage_id(t)) by {
                lemma_slot_of(t, index as int);
                assert forall|other: TxId|
                    tx_id_to_storage_id(t).dom().contains(other) <==> (tx_id_to_storage_id(
                        s0,
                    ).dom().contains(other) || other == id) by {
                    if holds_id(t, other) && other != id {
                        let j = choose|j: int|
                            live(t, j) && (#[trigger] t[j]).unwrap().transaction.id == other;
                        assert(same_node(s0, t[j], j));
                        assert(live(s0, j) && s0[j].unwrap().transaction.id == other);
                    }
                    if holds_id(s0, other) {
                        let j = choose|j: int|
                            live(s0, j) && (#[trigger] s0[j]).unwrap().transaction.id == other;
                        assert(same_node(s0, t[j], j));
                        assert(live(t, j) && t[j].unwrap().transaction.id == other);
                    }
                }
                assert forall|other: TxId| #[trigger]
                    tx_id_to_storage_id(s0).dom().contains(other) implies tx_id_to_storage_id(
                    t,
                )[other] == tx_id_to_storage_id(s0)[other] by {
                    let j = choose|j: int|
                        live(s0, j) && (#[trigger] s0[j]).unwrap().transaction.id == other;
                    assert(same_node(s0, t[j], j));
                    lemma_slot_of(s0, j);
                    lemma_slot_of(t, j);
                }
            }
            lemma_id_map_size(s0);
            lemma_id_map_size(t);
        }
        let entry = self.storage.get(index).unwrap();
        self.collision_manager.on_stored_transaction(index, &entry.transaction);
        proof {
            assert forall|key: ResourceKey, i: StorageIndex| #[trigger]
                self.collision_manager@.contains((key, i)) <==> (live(t, i as int) && t[i as int].unwrap().transaction.has_resource(
                    key,
                )) by {
                if i != index && i < t.len() {
                    assert(same_node(s0, t[i as int], i as int));
                }
            }
        }
        let ghost sel0 = self.selection_algorithm@;
        if is_root {
            proof {
                if sel0.contains(index) {
                    assert(is_executable(s0, index as int));
                }
                lemma_push_contains(sel0, index);
            }
            self.selection_algorithm.new_executable_transaction(index);
        }
        proof {
            assert forall|i: StorageIndex| #[trigger]
                self.selection_algorithm@.contains(i) <==> is_executable(t, i as int) by {
                if i != index && i < t.len() {
                    assert(same_node(s0, t[i as int], i as int));
                }
                if sel0.contains(i) {
                    assert(is_executable(s0, i as int));
                }
            }
        }
        index
    }

    /// The entry of the transaction `id`.
    pub fn get(&self, id: TxId) -> (entry: Option<&StorageEntry>)
        requires
            self.wf(),
        ensures
            entry.is_some() == holds_id(self.storage@, id),
            entry.is_some() ==> entry.unwrap().transaction.id == id && holds_tx(
                self.storage@,
                entry.unwrap().transaction,
            ),
    {
        match self.find(id) {
            Some(index) => {
                let entry = self.storage.get(index);
                proof {
                    assert(self.storage@[index as int].unwrap().transaction
                        == entry.unwrap().transaction);
                }
                entry
            },
            None => None,
        }
    }

    /// Whether the transaction `id` is pooled.
    pub fn contains(&self, id: TxId) -> (found: bool)
        requires
            self.wf(),
        ensures
            found == holds_id(self.storage@, id),
    {
        self.tx_id_to_storage_id.contains_key(&id)
    }

    /// Whether the pool holds exactly the transactions `expected_txs`.
    pub fn assert_integrity(&self, expected_txs: &Vec<TxId>) -> (exact: bool)
        requires
            self.wf(),
        ensures
            exact == (forall|id: TxId| #[trigger]
                expected_txs@.contains(id) <==> holds_id(self.storage@, id)),
    {
        let mut x: usize = 0;
        while x < expected_txs.len()
            invariant
                x <= expected_txs.len(),
                self.wf(),
                forall|y: int| 0 <= y < x ==> holds_id(self.storage@, #[trigger] expected_txs@[y]),
            decreases expected_txs.len() - x,
        {
            if !self.contains(expected_txs[x]) {
                proof {
                    assert(expected_txs@.contains(expected_txs@[x as int]));
                }
                return false;
            }
            x += 1;
        }
        let ids = self.iter_tx_ids();
        let mut y: usize = 0;
        while y < ids.len()
            invariant
                y <= ids.len(),
                forall|z: int| 0 <= z < y ==> expected_txs@.contains(#[trigger] ids@[z]),
                forall|id: TxId| #[trigger] ids@.contains(id) <==> holds_id(self.storage@, id),
            decreases ids.len() - y,
        {
            if !ids_contain(expected_txs, ids[y]) {
                proof {
                    assert(ids@.contains(ids@[y as int]));
                }
                return false;
            }
            y += 1;
        }
        proof {
            assert forall|id: TxId| #[trigger]
                expected_txs@.contains(id) <==> holds_id(self.storage@, id) by {
                if expected_txs@.contains(id) {
                    let w = choose|w: int| 0 <= w < expected_txs@.len() && expected_txs@[w] == id;
                    assert(holds_id(self.storage@, expected_txs@[w]));
                }
                if holds_id(self.storage@, id) {
                    assert(ids@.contains(id));
                    let w = choose|w: int| 0 <= w < ids@.len() && ids@[w] == id;
                    assert(expected_txs@.contains(ids@[w]));
                }
            }
        }
        true
    }

    /// The identifiers of the pooled transactions, in the order of their
    /// slots.
    pub fn iter_tx_ids(&self) -> (ids: Vec<TxId>)
        ensures
            ids@ == ids_in_slots(self.storage@, self.storage@.len() as int),
            forall|id: TxId| #[trigger] ids@.contains(id) <==> holds_id(self.storage@, id),
    {
        let mut ids: Vec<TxId> = Vec::new();
        let mut x: usize = 0;
        while x < self.storage.entries.len()
            invariant
                x <= self.storage.entries.len(),
                ids@ == ids_in_slots(self.storage@, x as int),
                forall|id: TxId| #[trigger]
                    ids@.contains(id) <==> (exists|j: int|
                        0 <= j < x && live(self.storage@, j) && (#[trigger] self.storage@[j]).unwrap().transaction.id
                            == id),
            decreases self.storage.entries.len() - x,
        {
            match &self.storage.entries[x] {
                Some(entry) => {
                    proof {
                        lemma_push_contains(ids@, entry.transaction.id);
                    }
                    ids.push(entry.transaction.id);
                },
                None => {},
            }
            x += 1;
        }
        ids
    }

    /// The totals as published: each saturates where it does not fit.
    pub fn stats(&self) -> (stats: TxPoolStats)
        ensures
            stats.tx_count == if self.current_txs() <= u64::MAX {
                self.current_txs() as u64
            } else {
                u64::MAX
            },
            stats.total_gas == if self.current_gas <= u64::MAX {
                self.current_gas as u64
            } else {
                u64::MAX
            },
            stats.total_size == if self.current_bytes_size <= u64::MAX {
                self.current_bytes_size as u64
            } else {
                u64::MAX
            },
    {
        TxPoolStats {
            tx_count: if self.tx_id_to_storage_id.len() as u128 <= u64::MAX as u128 {
                self.tx_id_to_storage_id.len() as u64
            } else {
                u64::MAX
            },
            total_gas: if self.current_gas <= u64::MAX as u128 {
                self.current_gas as u64
            } else {
                u64::MAX
            },
            total_size: if self.current_bytes_size <= u64::MAX as u128 {
                self.current_bytes_size as u64
            } else {
                u64::MAX
            },
        }
    }
}

/// The totals of a well-formed pool are the sums over what it stores: its
/// gas is the summed gas and its size the summed size of the stored
/// transactions, and its number of transactions, the size of the map from
/// identifiers to slots, is the number of stored entries. The map names
/// the slot of every stored transaction and nothing else.
pub proof fn lemma_totals_match_storage(pool: Pool)
    requires
        pool.wf(),
    ensures
        pool.current_gas == total(pool.storage@, 1),
        pool.current_bytes_size == total(pool.storage@, 2),
        pool.current_txs() == total(pool.storage@, 3),
        pool.tx_id_to_storage_id@.dom().finite(),
        forall|id: TxId| #[trigger]
            pool.tx_id_to_storage_id@.contains_key(id) ==> live(
                pool.storage@,
                pool.tx_id_to_storage_id@[id] as int,
            ) && pool.storage@[pool.tx_id_to_storage_id@[id] as int].unwrap().transaction.id == id,
        forall|i: int| #[trigger]
            live(pool.storage@, i) ==> pool.tx_id_to_storage_id@.contains_key(
                pool.storage@[i].unwrap().transaction.id,
            ),
{
    lemma_id_map_size(pool.storage@);
    assert forall|i: int| #[trigger] live(pool.storage@, i) implies pool.tx_id_to_storage_id@.contains_key(
        pool.storage@[i].unwrap().transaction.id,
    ) by {
        lemma_slot_of(pool.storage@, i);
    }
}

/// Every slot that the collision index or the selection of a well-formed
/// pool names holds an entry.
pub proof fn lemma_indices_name_live_entries(pool: Pool, key: ResourceKey, i: StorageIndex)
    requires
        pool.wf(),
    ensures
        pool.collision_manager@.contains((key, i)) ==> live(pool.storage@, i as int),
        pool.selection_algorithm@.contains(i) ==> live(pool.storage@, i as int),
{
}

/// The cumulative tip, gas, size and count of every entry of a well-formed
/// pool are the sums over the entry and all entries that depend on it.
pub proof fn lemma_cumulative_counters(pool: Pool, i: StorageIndex)
    requires
        pool.wf(),
        live(pool.storage@, i as int),
    ensures
        pool.storage@[i as int].unwrap().dependents_cumulative_tip == subtree_sum(
            pool.storage@,
            i,
            0,
        ),
        pool.storage@[i as int].unwrap().dependents_cumulative_gas == subtree_sum(
            pool.storage@,
            i,
            1,
        ),
        pool.storage@[i as int].unwrap().dependents_cumulative_bytes_size == subtree_sum(
            pool.storage@,
            i,
            2,
        ),
        pool.storage@[i as int].unwrap().number_dependents_in_chain == subtree_sum(
            pool.storage@,
            i,
            3,
        ),
{
    assert(entry_wf(pool.storage@, i as int));
}

/// The selection of a well-formed pool holds exactly the entries without
/// dependencies.
pub proof fn lemma_executable_set(pool: Pool, i: StorageIndex)
    requires
        pool.wf(),
    ensures
        pool.selection_algorithm@.contains(i) <==> (live(pool.storage@, i as int)
            && pool.storage@[i as int].unwrap().dependencies@.len() == 0),
{
}

/// The identifiers of the entries in the first `n` slots, in the order of
/// the slots.
pub open spec fn ids_in_slots(s: Slots, n: int) -> Seq<TxId>
    decreases n,
{
    if n <= 0 {
        Seq::empty()
    } else if live(s, n - 1) {
        ids_in_slots(s, n - 1).push(s[n - 1].unwrap().transaction.id)
    } else {
        ids_in_slots(s, n - 1)
    }
}

/// What slot `j` adds to a sum of measure `k` over every entry.
pub open spec fn term_all(s: Slots, k: int, j: int) -> int {
    crate::txpool::storage::term(s, true, 0, k, j)
}

/// Sum of measure `k` over the first `n` slots.
pub open spec fn sum_all(s: Slots, k: int, n: int) -> int {
    crate::txpool::storage::sum_upto(s, true, 0, k, n)
}

/// Whether `id` occurs in `ids`.
pub fn ids_contain(ids: &Vec<TxId>, id: TxId) -> (found: bool)
    ensures
        found == ids@.contains(id),
{
    let mut i: usize = 0;
    while i < ids.len()
        invariant
            i <= ids.len(),
            forall|x: int| 0 <= x < i ==> ids@[x] != id,
        decreases ids.len() - i,
    {
        if ids[i] == id {
            return true;
        }
        i += 1;
    }
    false
}

} // verus!
