//! Admission: whether a candidate may enter the pool, and what has to
//! leave for it.

use vstd::prelude::*;
use crate::txpool::collision_manager::{collisions_of, Collision};
use crate::txpool::error::{DependencyError, Error, InputValidationError, RemovedReason};
use crate::txpool::pool::{Pool, PoolLimits};
use crate::txpool::ratio::{ratio_greater, ratio_gt};
use crate::txpool::removal::{gone, holds_removed, holds_tx, pruned, under_any};
use crate::txpool::selection::{is_executable, lemma_gas_positive, less_worth_order};
use crate::txpool::spent_inputs::inputs_contain;
use crate::txpool::storage::{
    dependencies_closed, holds_id, in_subtree, is_dependency, lemma_sum_bounds, live, same_node,
    slots_wf, vec_contains, Slots, Storage, StorageEntry,
};
use crate::txpool::types::{Input, PoolTx, StorageIndex, TxId};
use crate::txpool::validation::{first_refusal, PersistentFacts};

verus! {

/// What the pool would hold with a candidate added, when that is over a
/// budget; and, during the search for room, what is left of it.
#[derive(Clone, Copy, Debug, PartialEq, Eq, Structural)]
pub struct NotEnoughSpace {
    pub gas_left: u128,
    pub bytes_left: u128,
    pub txs_left: u128,
}

/// The result of the `can_fit_into_pool` check.
#[derive(Clone, Copy, Debug, PartialEq, Eq, Structural)]
pub enum SpaceCheckResult {
    EnoughSpace,
    NotEnoughSpace(NotEnoughSpace),
}

/// A candidate with every pooled entry that it depends on.
pub struct CheckedTransaction {
    pub tx: PoolTx,
    pub all_dependencies: Vec<StorageIndex>,
}

/// What admitting a candidate takes.
pub struct CanStoreTransaction {
    /// The checked transaction by the storage.
    pub checked_transaction: CheckedTransaction,
    /// List of transactions to remove to fit the new transaction into the pool.
    pub transactions_to_remove: Vec<StorageIndex>,
    /// List of collided transactions that we need to remove to insert transaction.
    pub collisions: Vec<Collision>,
}

/// Whether `left` stays within all three budgets.
pub open spec fn within(limits: PoolLimits, left: NotEnoughSpace) -> bool {
    left.gas_left <= limits.max_gas && left.bytes_left <= limits.max_bytes_size && left.txs_left
        <= limits.max_txs
}

/// `a - b`, or zero where `b` is greater.
pub open spec fn minus(a: u128, b: u128) -> u128 {
    if a >= b {
        (a - b) as u128
    } else {
        0
    }
}

/// What is left of `left` once the subtrees of the first `k` members of
/// `order` are taken off, each by its cumulative counters.
pub open spec fn remaining(s: Slots, left: NotEnoughSpace, order: Seq<StorageIndex>, k: int) -> NotEnoughSpace
    decreases k,
{
    if k <= 0 {
        left
    } else {
        let before = remaining(s, left, order, k - 1);
        let e = s[order[k - 1] as int].unwrap();
        NotEnoughSpace {
            gas_left: minus(before.gas_left, e.dependents_cumulative_gas),
            bytes_left: minus(before.bytes_left, e.dependents_cumulative_bytes_size),
            txs_left: minus(before.txs_left, e.number_dependents_in_chain),
        }
    }
}

/// Whether the subtree of `e` is worth more per unit of gas than `tx`.
pub open spec fn worth_more_than(e: StorageEntry, tx: PoolTx) -> bool {
    ratio_greater(
        e.dependents_cumulative_tip as int,
        e.dependents_cumulative_gas as int,
        tx.tip as int,
        tx.max_gas as int,
    )
}

/// Whether `tx` is worth more per unit of gas than the subtree in slot `index`.
pub open spec fn outbids(s: Slots, tx: PoolTx, index: StorageIndex) -> bool {
    ratio_greater(
        tx.tip as int,
        tx.max_gas as int,
        s[index as int].unwrap().dependents_cumulative_tip as int,
        s[index as int].unwrap().dependents_cumulative_gas as int,
    )
}

/// The first `k` members of `order` have to go: before each of them the
/// budgets are still exceeded, and none of them is worth more than `tx`.
pub open spec fn evicts_until(
    s: Slots,
    limits: PoolLimits,
    left: NotEnoughSpace,
    tx: PoolTx,
    order: Seq<StorageIndex>,
    k: int,
) -> bool {
    &&& 0 <= k <= order.len()
    &&& forall|j: int|
        0 <= j < k ==> !within(limits, #[trigger] remaining(s, left, order, j))
            && !worth_more_than(s[order[j] as int].unwrap(), tx)
}

/// `chosen` is the shortest beginning of `order` whose removal makes room.
pub open spec fn free_space_found(
    s: Slots,
    limits: PoolLimits,
    left: NotEnoughSpace,
    tx: PoolTx,
    order: Seq<StorageIndex>,
    chosen: Seq<StorageIndex>,
) -> bool {
    exists|k: int| #[trigger]
        evicts_until(s, limits, left, tx, order, k) && chosen == order.subrange(0, k) && within(
            limits,
            remaining(s, left, order, k),
        )
}

/// No beginning of `order` makes room: the search runs out of members, or
/// meets one that is worth more than `tx`.
pub open spec fn free_space_missing(
    s: Slots,
    limits: PoolLimits,
    left: NotEnoughSpace,
    tx: PoolTx,
    order: Seq<StorageIndex>,
) -> bool {
    exists|k: int| #[trigger]
        evicts_until(s, limits, left, tx, order, k) && !within(
            limits,
            remaining(s, left, order, k),
        ) && (k == order.len() || worth_more_than(s[order[k] as int].unwrap(), tx))
}

/// `order` lists the executable entries, the least worth first.
pub open spec fn is_less_worth_list(s: Slots, order: Seq<StorageIndex>) -> bool {
    &&& less_worth_order(s, order)
    &&& forall|i: StorageIndex| #[trigger] order.contains(i) <==> is_executable(s, i as int)
}

/// `a - b`, or zero where `b` is greater.
pub fn take_off(a: u128, b: u128) -> (rest: u128)
    ensures
        rest == minus(a, b),
{
    if a >= b {
        a - b
    } else {
        0
    }
}

impl Pool {
    /// Whether `tx` spends the black-listed input `input`.
    pub open spec fn blacklisted(&self, tx: PoolTx, input: Input) -> bool {
        tx.inputs@.contains(input) && self.config.black_list@.contains(input)
    }

    /// Whether `input` is the first black-listed input of `tx`.
    pub open spec fn first_blacklisted(&self, tx: PoolTx, input: Input) -> bool {
        exists|x: int|
            0 <= x < tx.inputs@.len() && #[trigger] tx.inputs@[x] == input
                && self.config.black_list@.contains(input) && forall|y: int|
                0 <= y < x ==> !self.config.black_list@.contains(#[trigger] tx.inputs@[y])
    }

    /// Whether the pooled entry `c.index` holds the resource `c.reason`,
    /// which `tx` wants too.
    pub open spec fn collides(&self, tx: PoolTx, c: Collision) -> bool {
        self.collision_manager@.contains((c.reason, c.index)) && tx.has_resource(c.reason)
    }

    /// Whether `tx` depends on an entry that it collides with.
    pub open spec fn some_collision_is_dependency(&self, tx: PoolTx) -> bool {
        exists|c: Collision| #[trigger] self.collides(tx, c) && is_dependency(self.storage@, tx, c.index)
    }

    /// Whether `c` is the first of the collisions of `tx`, in the order of
    /// the collision index, that `tx` does not outbid.
    pub open spec fn first_winning_collision(&self, tx: PoolTx, c: Collision) -> bool {
        let all = collisions_of(self.collision_manager@, tx, self.collision_manager@.len() as int);
        exists|x: int|
            0 <= x < all.len() && #[trigger] all[x] == c && !outbids(self.storage@, tx, c.index)
                && forall|y: int| 0 <= y < x ==> outbids(self.storage@, tx, (#[trigger] all[y]).index)
    }

    /// Whether `tx` collides with an entry that it does not outbid.
    pub open spec fn some_collision_wins(&self, tx: PoolTx) -> bool {
        exists|c: Collision| #[trigger] self.collides(tx, c) && !outbids(self.storage@, tx, c.index)
    }

    /// Whether `tx` depends on a pooled entry.
    pub open spec fn depends(&self, tx: PoolTx) -> bool {
        exists|d: StorageIndex| is_dependency(self.storage@, tx, d)
    }

    /// What the pool would hold with `tx` added.
    pub open spec fn demand(&self, tx: PoolTx) -> NotEnoughSpace {
        NotEnoughSpace {
            gas_left: (self.current_gas + tx.max_gas) as u128,
            bytes_left: (self.current_bytes_size + tx.metered_bytes_size) as u128,
            txs_left: (self.current_txs() + 1) as u128,
        }
    }

    /// Whether the pool stays within its budgets with `tx` added.
    pub open spec fn enough_space(&self, tx: PoolTx) -> bool {
        within(self.config.pool_limits, self.demand(tx))
    }

    /// The first black-listed input of `tx`, if it has one.
    pub fn check_blacklisting(&self, tx: &PoolTx) -> (res: Result<(), Input>)
        ensures
            res.is_ok() ==> forall|input: Input| !self.blacklisted(*tx, input),
            res.is_err() ==> self.blacklisted(*tx, res->Err_0) && self.first_blacklisted(
                *tx,
                res->Err_0,
            ),
    {
        let mut x: usize = 0;
        while x < tx.inputs.len()
            invariant
                x <= tx.inputs.len(),
                forall|y: int| 0 <= y < x ==> !self.config.black_list@.contains(#[trigger] tx.inputs@[y]),
            decreases tx.inputs.len() - x,
        {
            let input: Input = tx.inputs[x];
            if inputs_contain(&self.config.black_list, input) {
                proof {
                    assert(tx.inputs@.contains(input));
                }
                return Err(input);
            }
            x += 1;
        }
        proof {
            assert forall|input: Input| !self.blacklisted(*tx, input) by {
                if tx.inputs@.contains(input) {
                    let y = choose|y: int| 0 <= y < tx.inputs@.len() && tx.inputs@[y] == input;
                    assert(!self.config.black_list@.contains(tx.inputs@[y]));
                }
            }
        }
        Ok(())
    }

    /// Check if the pool has enough space to store a transaction: enough
    /// where gas, size and number stay within the budgets with `tx` added.
    /// A transaction with dependencies is refused by a full pool.
    pub fn can_fit_into_pool(&self, tx: &PoolTx, has_dependencies: bool) -> (res: Result<
        SpaceCheckResult,
        Error,
    >)
        requires
            self.wf(),
        ensures
            self.enough_space(*tx) ==> res == Ok::<SpaceCheckResult, Error>(
                SpaceCheckResult::EnoughSpace,
            ),
            !self.enough_space(*tx) && has_dependencies ==> res == Err::<SpaceCheckResult, Error>(
                Error::NotInsertedLimitHit,
            ),
            !self.enough_space(*tx) && !has_dependencies ==> res == Ok::<SpaceCheckResult, Error>(
                SpaceCheckResult::NotEnoughSpace(self.demand(*tx)),
            ),
    {
        proof {
            let n = self.storage@.len() as int;
            lemma_sum_bounds(self.storage@, true, 0, 1, 0, n);
            lemma_sum_bounds(self.storage@, true, 0, 2, 0, n);
            assert(n * 0xffff_ffff_ffff_ffff + 0xffff_ffff_ffff_ffff
                <= 0xffff_ffff_ffff_ffff_ffff_ffff_ffff_ffff) by (nonlinear_arith)
                requires
                    n <= 0xffff_ffff_ffff_ffff,
            ;
        }
        let gas_left: u128 = self.current_gas + tx.max_gas as u128;
        let bytes_left: u128 = self.current_bytes_size + tx.metered_bytes_size as u128;
        let txs_left: u128 = self.tx_id_to_storage_id.len() as u128 + 1;
        if gas_left <= self.config.pool_limits.max_gas as u128 && bytes_left
            <= self.config.pool_limits.max_bytes_size as u128 && txs_left
            <= self.config.pool_limits.max_txs as u128 {
            return Ok(SpaceCheckResult::EnoughSpace);
        }
        if has_dependencies {
            return Err(Error::NotInsertedLimitHit);
        }
        Ok(SpaceCheckResult::NotEnoughSpace(NotEnoughSpace { gas_left, bytes_left, txs_left }))
    }

    /// Find free space in the pool by marking less profitable transactions
    /// for removal: executable entries, the least worth first, each with its
    /// whole subtree, until what is left fits. The search fails when it runs
    /// out of entries or meets one worth more than `tx`.
    pub fn find_free_space(&self, left: NotEnoughSpace, tx: &PoolTx) -> (res: Result<
        Vec<StorageIndex>,
        Error,
    >)
        requires
            self.wf(),
            tx.max_gas > 0,
        ensures
            exists|order: Seq<StorageIndex>| #[trigger]
                is_less_worth_list(self.storage@, order) && match res {
                    Ok(chosen) => free_space_found(
                        self.storage@,
                        self.config.pool_limits,
                        left,
                        *tx,
                        order,
                        chosen@,
                    ),
                    Err(e) => e == Error::NotInsertedLimitHit && free_space_missing(
                        self.storage@,
                        self.config.pool_limits,
                        left,
                        *tx,
                        order,
                    ),
                },
    {
        let ghost s = self.storage@;
        let limits = self.config.pool_limits;
        let order = self.selection_algorithm.get_less_worth_txs(&self.storage);
        let mut cur = left;
        let mut chosen: Vec<StorageIndex> = Vec::new();
        let mut x: usize = 0;
        while cur.gas_left > limits.max_gas as u128 || cur.bytes_left > limits.max_bytes_size as u128
            || cur.txs_left > limits.max_txs as u128
            invariant
                x <= order@.len(),
                s == self.storage@,
                slots_wf(s),
                limits == self.config.pool_limits,
                tx.max_gas > 0,
                is_less_worth_list(s, order@),
                cur == remaining(s, left, order@, x as int),
                chosen@ == order@.subrange(0, x as int),
                evicts_until(s, limits, left, *tx, order@, x as int),
            decreases order@.len() - x,
        {
            if x >= order.len() {
                proof {
                    assert(free_space_missing(s, limits, left, *tx, order@));
                }
                return Err(Error::NotInsertedLimitHit);
            }
            let index: usize = order[x];
            proof {
                assert(order@.contains(index));
                lemma_gas_positive(s, index as int);
            }
            let entry = self.storage.get(index).unwrap();
            if ratio_gt(
                entry.dependents_cumulative_tip,
                entry.dependents_cumulative_gas,
                tx.tip as u128,
                tx.max_gas as u128,
            ) {
                proof {
                    assert(free_space_missing(s, limits, left, *tx, order@));
                }
                return Err(Error::NotInsertedLimitHit);
            }
            cur = NotEnoughSpace {
                gas_left: take_off(cur.gas_left, entry.dependents_cumulative_gas),
                bytes_left: take_off(cur.bytes_left, entry.dependents_cumulative_bytes_size),
                txs_left: take_off(cur.txs_left, entry.number_dependents_in_chain),
            };
            chosen.push(index);
            proof {
                assert(chosen@ =~= order@.subrange(0, x + 1));
            }
            x += 1;
        }
        proof {
            assert(free_space_found(s, limits, left, *tx, order@, chosen@));
        }
        Ok(chosen)
    }

    /// Whether `tx` outbids every collision: it has to be worth more per
    /// unit of gas than the whole subtree of each.
    pub fn check_collision_requirements(&self, tx: &PoolTx, collisions: &Vec<Collision>) -> (res:
        Result<(), Collision>)
        requires
            self.wf(),
            tx.max_gas > 0,
            forall|c: Collision| #[trigger] collisions@.contains(c) <==> self.collides(*tx, c),
            collisions@ == collisions_of(
                self.collision_manager@,
                *tx,
                self.collision_manager@.len() as int,
            ),
        ensures
            res.is_ok() <==> !self.some_collision_wins(*tx),
            res.is_err() ==> self.collides(*tx, res->Err_0) && self.first_winning_collision(
                *tx,
                res->Err_0,
            ),
    {
        let ghost s = self.storage@;
        let mut x: usize = 0;
        while x < collisions.len()
            invariant
                x <= collisions.len(),
                s == self.storage@,
                self.wf(),
                tx.max_gas > 0,
                forall|c: Collision| #[trigger] collisions@.contains(c) <==> self.collides(*tx, c),
                collisions@ == collisions_of(
                    self.collision_manager@,
                    *tx,
                    self.collision_manager@.len() as int,
                ),
                forall|y: int| 0 <= y < x ==> outbids(s, *tx, (#[trigger] collisions@[y]).index),
            decreases collisions.len() - x,
        {
            let c: Collision = collisions[x];
            proof {
                assert(collisions@.contains(c));
                assert(self.collision_manager@.contains((c.reason, c.index)));
                lemma_gas_positive(s, c.index as int);
            }
            let entry = self.storage.get(c.index).unwrap();
            if !ratio_gt(
                tx.tip as u128,
                tx.max_gas as u128,
                entry.dependents_cumulative_tip,
                entry.dependents_cumulative_gas,
            ) {
                proof {
                    assert(collisions@[x as int] == c);
                }
                return Err(c);
            }
            x += 1;
        }
        proof {
            if self.some_collision_wins(*tx) {
                let c = choose|c: Collision| #[trigger]
                    self.collides(*tx, c) && !outbids(s, *tx, c.index);
                assert(collisions@.contains(c));
                let y = choose|y: int| 0 <= y < collisions@.len() && collisions@[y] == c;
                assert(outbids(s, *tx, collisions@[y].index));
            }
        }
        Ok(())
    }

    /// Whether a collision is at the same time a dependency of `tx`.
    pub fn collision_is_dependency(
        &self,
        tx: &PoolTx,
        collisions: &Vec<Collision>,
        deps: &Vec<StorageIndex>,
    ) -> (found: bool)
        requires
            forall|c: Collision| #[trigger] collisions@.contains(c) <==> self.collides(*tx, c),
            forall|d: StorageIndex| #[trigger] deps@.contains(d) <==> is_dependency(self.storage@, *tx, d),
        ensures
            found == self.some_collision_is_dependency(*tx),
    {
        let mut x: usize = 0;
        while x < collisions.len()
            invariant
                x <= collisions.len(),
                forall|y: int| 0 <= y < x ==> !deps@.contains((#[trigger] collisions@[y]).index),
                forall|c: Collision| #[trigger] collisions@.contains(c) <==> self.collides(*tx, c),
                forall|d: StorageIndex| #[trigger]
                    deps@.contains(d) <==> is_dependency(self.storage@, *tx, d),
            decreases collisions.len() - x,
        {
            if vec_contains(deps, collisions[x].index) {
                proof {
                    assert(collisions@.contains(collisions@[x as int]));
                }
                return true;
            }
            x += 1;
        }
        proof {
            if self.some_collision_is_dependency(*tx) {
                let c = choose|c: Collision| #[trigger]
                    self.collides(*tx, c) && is_dependency(self.storage@, *tx, c.index);
                assert(collisions@.contains(c));
                let y = choose|y: int| 0 <= y < collisions@.len() && collisions@[y] == c;
                assert(!deps@.contains(collisions@[y].index));
            }
        }
        false
    }

    /// What every plan for admitting `tx` holds: the candidate, exactly its
    /// dependencies, and exactly its collisions.
    pub open spec fn plan_basics(&self, tx: PoolTx, plan: CanStoreTransaction) -> bool {
        &&& plan.checked_transaction.tx == tx
        &&& forall|d: StorageIndex| #[trigger]
            plan.checked_transaction.all_dependencies@.contains(d) <==> is_dependency(
                self.storage@,
                tx,
                d,
            )
        &&& dependencies_closed(self.storage@, plan.checked_transaction.all_dependencies@)
        &&& forall|c: Collision| #[trigger] plan.collisions@.contains(c) <==> self.collides(tx, c)
        &&& plan.collisions@ == collisions_of(
            self.collision_manager@,
            tx,
            self.collision_manager@.len() as int,
        )
    }

    /// The rules of admission, in their order: what `can_insert_transaction`
    /// answers for `tx` in this pool.
    pub open spec fn admission(
        &self,
        tx: PoolTx,
        facts: PersistentFacts,
        res: Result<CanStoreTransaction, Error>,
    ) -> bool {
        let s = self.storage@;
        let refusal = first_refusal(
            s,
            tx,
            facts,
            self.extracted_outputs,
            self.spent_inputs,
            self.config.utxo_validation,
        );
        if tx.max_gas == 0 {
            res == Err::<CanStoreTransaction, Error>(
                Error::InputValidation(InputValidationError::MaxGasZero),
            )
        } else if holds_id(s, tx.id) {
            res == Err::<CanStoreTransaction, Error>(
                Error::InputValidation(InputValidationError::DuplicateTxId(tx.id)),
            )
        } else if exists|input: Input| self.blacklisted(tx, input) {
            res is Err && res->Err_0 is Blacklisted && self.first_blacklisted(
                tx,
                res->Err_0->Blacklisted_0,
            )
        } else if tx.blob_id is Some && facts.blob_exists {
            res == Err::<CanStoreTransaction, Error>(
                Error::InputValidation(
                    InputValidationError::NotInsertedBlobIdAlreadyTaken(tx.blob_id->Some_0),
                ),
            )
        } else if refusal is Err {
            res == Err::<CanStoreTransaction, Error>(Error::InputValidation(refusal->Err_0))
        } else if self.some_collision_is_dependency(tx) {
            res == Err::<CanStoreTransaction, Error>(
                Error::Dependency(DependencyError::NotInsertedCollisionIsDependency),
            )
        } else if self.some_collision_wins(tx) {
            res is Err && res->Err_0 is Collided && self.first_winning_collision(
                tx,
                res->Err_0->Collided_0,
            )
        } else if self.enough_space(tx) {
            res is Ok && self.plan_basics(tx, res->Ok_0)
                && (res->Ok_0).transactions_to_remove@.len() == 0
        } else if self.depends(tx) {
            res == Err::<CanStoreTransaction, Error>(Error::NotInsertedLimitHit)
        } else {
            exists|order: Seq<StorageIndex>| #[trigger]
                is_less_worth_list(s, order) && match res {
                    Ok(plan) => self.plan_basics(tx, plan) && free_space_found(
                        s,
                        self.config.pool_limits,
                        self.demand(tx),
                        tx,
                        order,
                        plan.transactions_to_remove@,
                    ),
                    Err(e) => e == Error::NotInsertedLimitHit && free_space_missing(
                        s,
                        self.config.pool_limits,
                        self.demand(tx),
                        tx,
                        order,
                    ),
                }
        }
    }

    /// Check if a transaction can be inserted into the pool, and what it
    /// takes: which entries it depends on, which collide with it and which
    /// have to make room. The pool is not changed.
    pub fn can_insert_transaction(&self, tx: PoolTx, facts: &PersistentFacts) -> (res: Result<
        CanStoreTransaction,
        Error,
    >)
        requires
            self.wf(),
        ensures
            self.admission(tx, *facts, res),
    {
        if tx.max_gas == 0 {
            return Err(Error::InputValidation(InputValidationError::MaxGasZero));
        }
        if self.tx_id_to_storage_id.contains_key(&tx.id) {
            return Err(Error::InputValidation(InputValidationError::DuplicateTxId(tx.id)));
        }
        match self.check_blacklisting(&tx) {
            Err(input) => {
                return Err(Error::Blacklisted(input));
            },
            Ok(_) => {},
        }
        match tx.blob_id {
            Some(blob) => {
                if facts.blob_exists {
                    return Err(
                        Error::InputValidation(
                            InputValidationError::NotInsertedBlobIdAlreadyTaken(blob),
                        ),
                    );
                }
            },
            None => {},
        }
        match self.storage.validate_inputs(
            &tx,
            facts,
            &self.extracted_outputs,
            &self.spent_inputs,
            self.config.utxo_validation,
        ) {
            Err(e) => {
                return Err(Error::InputValidation(e));
            },
            Ok(_) => {},
        }
        let found = self.collision_manager.find_collisions(&tx);
        let deps = self.storage.can_store_transaction(&tx);
        proof {
            assert forall|c: Collision| #[trigger] found@.contains(c) <==> self.collides(tx, c) by {
                assert(c == Collision { index: c.index, reason: c.reason });
            }
        }
        if self.collision_is_dependency(&tx, &found, &deps) {
            return Err(Error::Dependency(DependencyError::NotInsertedCollisionIsDependency));
        }
        match self.check_collision_requirements(&tx, &found) {
            Err(c) => {
                return Err(Error::Collided(c));
            },
            Ok(_) => {},
        }
        let has_dependencies: bool = deps.len() > 0;
        proof {
            if has_dependencies {
                assert(deps@.contains(deps@[0]));
                assert(is_dependency(self.storage@, tx, deps@[0]));
            }
            if self.depends(tx) {
                let d = choose|d: StorageIndex| is_dependency(self.storage@, tx, d);
                assert(deps@.contains(d));
            }
        }
        let mut transactions_to_remove: Vec<StorageIndex> = Vec::new();
        match self.can_fit_into_pool(&tx, has_dependencies) {
            Err(e) => {
                return Err(e);
            },
            Ok(SpaceCheckResult::EnoughSpace) => {},
            Ok(SpaceCheckResult::NotEnoughSpace(left)) => {
                match self.find_free_space(left, &tx) {
                    Err(e) => {
                        return Err(e);
                    },
                    Ok(chosen) => {
                        transactions_to_remove = chosen;
                    },
                }
            },
        }
        Ok(
            CanStoreTransaction {
                checked_transaction: CheckedTransaction { tx, all_dependencies: deps },
                transactions_to_remove,
                collisions: found,
            },
        )
    }
}

/// The slots that `collisions` name, in their order.
pub open spec fn indices_of(collisions: Seq<Collision>) -> Seq<StorageIndex> {
    Seq::new(collisions.len(), |x: int| collisions[x].index)
}

/// The slots that `collisions` name, in their order.
pub fn collision_indices(collisions: &Vec<Collision>) -> (roots: Vec<StorageIndex>)
    ensures
        roots@ == indices_of(collisions@),
{
    let mut roots: Vec<StorageIndex> = Vec::new();
    let mut x: usize = 0;
    while x < collisions.len()
        invariant
            x <= collisions.len(),
            roots@ == indices_of(collisions@.subrange(0, x as int)),
        decreases collisions.len() - x,
    {
        roots.push(collisions[x].index);
        proof {
            assert(roots@ =~= indices_of(collisions@.subrange(0, x + 1)));
        }
        x += 1;
    }
    proof {
        assert(collisions@.subrange(0, collisions@.len() as int) =~= collisions@);
    }
    roots
}

/// What an admission did.
pub struct Insertion {
    /// The slot of the admitted transaction.
    pub index: StorageIndex,
    /// Whether the admitted transaction waits for a pooled one. Where it
    /// does not, it is executable at once.
    pub has_dependencies: bool,
    /// The transactions that had to leave for it.
    pub removed: Vec<PoolTx>,
    /// Why they had to leave.
    pub reason: Error,
}

/// The slots whose subtrees leave under `plan`: those that make room, then
/// those that collide.
pub open spec fn eviction_roots(plan: CanStoreTransaction) -> Seq<StorageIndex> {
    plan.transactions_to_remove@ + indices_of(plan.collisions@)
}

/// The storage `s1` is `s0` after `plan` has been carried out: the subtrees
/// of the eviction roots are gone, the candidate is stored at `ins.index`,
/// the first slot that is free then, with the time `now`, and nothing else
/// has changed hands.
pub open spec fn inserted(
    s0: Slots,
    s1: Slots,
    plan: CanStoreTransaction,
    ins: Insertion,
    now: u64,
) -> bool {
    let roots = eviction_roots(plan);
    let at = ins.index as int;
    &&& live(s1, at)
    &&& s1[at].unwrap().transaction == plan.checked_transaction.tx
    &&& s1[at].unwrap().dependencies@ == plan.checked_transaction.all_dependencies@
    &&& s1[at].unwrap().creation_instant == now
    &&& ins.has_dependencies == (plan.checked_transaction.all_dependencies@.len() > 0)
    &&& ins.reason == Error::Removed(RemovedReason::LessWorth(plan.checked_transaction.tx.id))
    &&& forall|j: int|
        j != at ==> (live(s1, j) <==> (live(s0, j) && !under_any(s0, roots, roots.len() as int, j)))
    &&& forall|j: int|
        j != at && live(s1, j) ==> (#[trigger] s1[j]).unwrap().transaction
            == s0[j].unwrap().transaction
    &&& forall|j: int|
        0 <= j < at ==> live(s0, j) && !under_any(s0, roots, roots.len() as int, j)
    &&& holds_removed(s0, s1, ins.removed@)
}

/// Joins the slots that make room and the slots that collide.
pub fn roots_of(plan: &CanStoreTransaction) -> (roots: Vec<StorageIndex>)
    ensures
        roots@ == eviction_roots(*plan),
{
    let mut roots: Vec<StorageIndex> = Vec::new();
    let mut x: usize = 0;
    while x < plan.transactions_to_remove.len()
        invariant
            x <= plan.transactions_to_remove.len(),
            roots@ == plan.transactions_to_remove@.subrange(0, x as int),
        decreases plan.transactions_to_remove.len() - x,
    {
        roots.push(plan.transactions_to_remove[x]);
        proof {
            assert(roots@ =~= plan.transactions_to_remove@.subrange(0, x + 1));
        }
        x += 1;
    }
    proof {
        assert(plan.transactions_to_remove@.subrange(0, plan.transactions_to_remove@.len() as int)
            =~= plan.transactions_to_remove@);
    }
    let mut others = collision_indices(&plan.collisions);
    let ghost first = roots@;
    let ghost second = others@;
    roots.append(&mut others);
    proof {
        assert(roots@ =~= first + second);
    }
    roots
}

impl Pool {
    /// Whether the transaction `id` is known outside the pool: spent of
    /// late, or committed.
    pub open spec fn known(&self, id: TxId, facts: PersistentFacts) -> bool {
        self.spent_inputs.spec_is_spent_tx(id) || facts.contains_tx
    }

    /// Once the eviction roots of an accepted plan are gone, the candidate
    /// can still be stored: its dependencies are all there.
    pub proof fn lemma_plan_survives(
        &self,
        tx: PoolTx,
        facts: PersistentFacts,
        plan: CanStoreTransaction,
        after: Slots,
    )
        requires
            self.wf(),
            self.admission(tx, facts, Ok(plan)),
            pruned(self.storage@, after),
            forall|j: int|
                live(after, j) <==> (live(self.storage@, j) && !under_any(
                    self.storage@,
                    eviction_roots(plan),
                    eviction_roots(plan).len() as int,
                    j,
                )),
        ensures
            Storage::accepts(after, tx, plan.checked_transaction.all_dependencies@),
            plan.checked_transaction.tx == tx,
    {
        let s0 = self.storage@;
        let deps = plan.checked_transaction.all_dependencies@;
        let roots = eviction_roots(plan);
        assert(self.plan_basics(tx, plan));
        if holds_id(after, tx.id) {
            let j = choose|j: int| live(after, j) && (#[trigger] after[j]).unwrap().transaction.id == tx.id;
            assert(live(s0, j));
            assert(s0[j].unwrap().transaction.id == tx.id);
        }
        if deps.len() > 0 {
            assert(deps.contains(deps[0]));
            assert(is_dependency(s0, tx, deps[0]));
            assert(self.depends(tx));
            assert(plan.transactions_to_remove@.len() == 0);
        }
        assert forall|x: int| 0 <= x < roots.len() implies !deps.contains(#[trigger] roots[x]) by {
            if deps.contains(roots[x]) {
                let y = x - plan.transactions_to_remove@.len();
                let c = plan.collisions@[y];
                assert(roots[x] == c.index);
                assert(plan.collisions@.contains(c));
                assert(self.collides(tx, c));
                assert(is_dependency(s0, tx, c.index));
                assert(self.some_collision_is_dependency(tx));
            }
        }
        assert forall|d: StorageIndex| #[trigger] deps.contains(d) implies live(after, d as int) by {
            assert(live(s0, d as int));
            if under_any(s0, roots, roots.len() as int, d as int) {
                let x = choose|x: int|
                    0 <= x < roots.len() && x < roots.len() && #[trigger] in_subtree(
                        s0,
                        roots[x],
                        d as int,
                    );
                assert(!deps.contains(roots[x]));
                if d != roots[x] {
                    assert(s0[d as int].unwrap().dependencies@.contains(roots[x]));
                }
            }
        }
        assert forall|d: StorageIndex, a: StorageIndex|
            deps.contains(d) && #[trigger] after[d as int].unwrap().dependencies@.contains(
                a,
            ) implies deps.contains(a) by {
            assert(live(after, d as int));
            assert(s0[d as int].unwrap().dependencies@.contains(a));
        }
    }

    /// Insert a transaction into the pool: where the transaction is not
    /// known already and `can_insert_transaction` accepts it, the subtrees of
    /// the entries that make room for it and of those that collide with it
    /// leave, and it is stored. A refused transaction changes nothing.
    pub fn insert(&mut self, tx: PoolTx, facts: &PersistentFacts, now: u64) -> (res: Result<
        Insertion,
        Error,
    >)
        requires
            old(self).wf(),
        ensures
            final(self).wf(),
            final(self).config == old(self).config,
            final(self).spent_inputs == old(self).spent_inputs,
            final(self).extracted_outputs == old(self).extracted_outputs,
            res is Err ==> *final(self) == *old(self),
            old(self).known(tx.id, *facts) ==> res is Err && res->Err_0 == Error::InputValidation(
                InputValidationError::DuplicateTxId(tx.id),
            ),
            !old(self).known(tx.id, *facts) && res is Err ==> old(self).admission(
                tx,
                *facts,
                Err(res->Err_0),
            ),
            res is Ok ==> final(self).current_txs() + (res->Ok_0).removed@.len() == old(
                self,
            ).current_txs() + 1,
            !old(self).known(tx.id, *facts) && res is Ok ==> exists|plan: CanStoreTransaction| #[trigger]
                old(self).admission(tx, *facts, Ok(plan)) && inserted(
                    old(self).storage@,
                    final(self).storage@,
                    plan,
                    res->Ok_0,
                    now,
                ),
    {
        if self.spent_inputs.is_spent_tx(tx.id) || facts.contains_tx {
            return Err(Error::InputValidation(InputValidationError::DuplicateTxId(tx.id)));
        }
        let ghost s0 = self.storage@;
        let plan = match self.can_insert_transaction(tx, facts) {
            Err(e) => {
                return Err(e);
            },
            Ok(plan) => plan,
        };
        let ghost accepted = plan;
        let roots = roots_of(&plan);
        let mut removed: Vec<PoolTx> = Vec::new();
        self.remove_subtrees(&roots, &mut removed);
        let ghost s1 = self.storage@;
        proof {
            old(self).lemma_plan_survives(tx, *facts, plan, s1);
        }
        let CanStoreTransaction { checked_transaction, transactions_to_remove, collisions } = plan;
        let CheckedTransaction { tx: candidate, all_dependencies } = checked_transaction;
        let has_dependencies: bool = all_dependencies.len() > 0;
        let reason = Error::Removed(RemovedReason::LessWorth(candidate.id));
        let index = self.store_entry(candidate, all_dependencies, now);
        let ins = Insertion { index, has_dependencies, removed, reason };
        proof {
            let s2 = self.storage@;
            assert forall|j: int| j != index && live(s2, j) implies (#[trigger] s2[j]).unwrap().transaction
                == s0[j].unwrap().transaction by {
                assert(same_node(s1, s2[j], j));
                assert(live(s1, j));
            }
            assert forall|j: int| j != index implies (live(s2, j) <==> (live(s0, j) && !under_any(
                s0,
                roots@,
                roots@.len() as int,
                j,
            ))) by {
                if 0 <= j < s2.len() {
                    assert(same_node(s1, s2[j], j));
                }
            }
            assert forall|t: PoolTx| #[trigger] ins.removed@.contains(t) <==> gone(s0, s2, t) by {
                if holds_tx(s0, t) {
                    let i = choose|i: int| live(s0, i) && (#[trigger] s0[i]).unwrap().transaction == t;
                    assert(s0[i].unwrap().transaction.id == t.id);
                    assert(t.id != tx.id);
                    if holds_id(s2, t.id) {
                        let j = choose|j: int|
                            live(s2, j) && (#[trigger] s2[j]).unwrap().transaction.id == t.id;
                        assert(j != index);
                        assert(same_node(s1, s2[j], j));
                        assert(live(s1, j) && s1[j].unwrap().transaction.id == t.id);
                    }
                    if holds_id(s1, t.id) {
                        let j = choose|j: int|
                            live(s1, j) && (#[trigger] s1[j]).unwrap().transaction.id == t.id;
                        assert(j != index);
                        assert(same_node(s1, s2[j], j));
                        assert(live(s2, j) && s2[j].unwrap().transaction.id == t.id);
                    }
                }
            }
            assert(inserted(s0, s2, accepted, ins, now));
        }
        Ok(ins)
    }
}

} // verus!
