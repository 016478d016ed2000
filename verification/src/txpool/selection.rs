//! Which executable transaction goes first: into a block, or out of a full
//! pool.

use vstd::prelude::*;
use crate::txpool::ratio::{ratio_greater, ratio_gt};
use crate::txpool::storage::{
    entry_wf, lemma_sum_bounds, live, slots_wf, vec_without, Slots, Storage, StorageEntry,
};
use crate::txpool::types::{PoolTx, StorageIndex};

verus! {

/// What is left of a block's budget.
#[derive(Clone, Copy, Debug, PartialEq, Eq, Structural)]
pub struct Constraints {
    pub max_gas: u64,
    pub maximum_txs: u16,
    pub maximum_block_size: u64,
}

/// Whether the entry in slot `i` waits for no other entry.
pub open spec fn is_executable(s: Slots, i: int) -> bool {
    live(s, i) && s[i].unwrap().dependencies@.len() == 0
}

/// Whether one more transaction `tx` stays within `left`.
pub open spec fn fits(tx: PoolTx, left: Constraints) -> bool {
    tx.max_gas <= left.max_gas && tx.metered_bytes_size <= left.maximum_block_size
        && left.maximum_txs >= 1
}

/// Whether `a` is selected before `b`: by the greater ratio of tip to gas,
/// and between equal ratios by the smaller identifier.
pub open spec fn better(a: PoolTx, b: PoolTx) -> bool {
    ratio_greater(a.tip as int, a.max_gas as int, b.tip as int, b.max_gas as int) || (a.tip
        * b.max_gas == b.tip * a.max_gas && a.id < b.id)
}

/// Whether the subtree of `a` is worth more per unit of gas than that of `b`.
pub open spec fn worth_more(a: StorageEntry, b: StorageEntry) -> bool {
    ratio_greater(
        a.dependents_cumulative_tip as int,
        a.dependents_cumulative_gas as int,
        b.dependents_cumulative_tip as int,
        b.dependents_cumulative_gas as int,
    )
}

/// Whether `a` leaves a full pool before `b`: its subtree is worth less per
/// unit of gas, or as much and its identifier is the greater one. This is
/// the order of selection, reversed, over subtrees.
pub open spec fn leaves_before(a: StorageEntry, b: StorageEntry) -> bool {
    worth_more(b, a) || (!worth_more(a, b) && a.transaction.id > b.transaction.id)
}

/// Comparisons of fractions chain: from `a >= b` and `b >= c` follows
/// `a >= c`, and strictly so if either premise is strict.
pub proof fn lemma_ratio_chain(na: int, da: int, nb: int, db: int, nc: int, dc: int)
    requires
        da > 0,
        db > 0,
        dc > 0,
        na >= 0,
        nb >= 0,
        nc >= 0,
        na * db >= nb * da,
        nb * dc >= nc * db,
    ensures
        na * dc >= nc * da,
        (na * db > nb * da || nb * dc > nc * db) ==> na * dc > nc * da,
{
    assert((na * db) * dc >= (nb * da) * dc) by (nonlinear_arith)
        requires
            na * db >= nb * da,
            dc > 0,
    ;
    assert((nb * dc) * da >= (nc * db) * da) by (nonlinear_arith)
        requires
            nb * dc >= nc * db,
            da > 0,
    ;
    assert((na * db) * dc == (na * dc) * db) by (nonlinear_arith);
    assert((nb * da) * dc == (nb * dc) * da) by (nonlinear_arith);
    assert((nc * db) * da == (nc * da) * db) by (nonlinear_arith);
    assert(na * dc >= nc * da) by (nonlinear_arith)
        requires
            (na * dc) * db >= (nc * da) * db,
            db > 0,
    ;
    if na * db > nb * da {
        assert((na * db) * dc > (nb * da) * dc) by (nonlinear_arith)
            requires
                na * db > nb * da,
                dc > 0,
        ;
        assert(na * dc > nc * da) by (nonlinear_arith)
            requires
                (na * dc) * db > (nc * da) * db,
                db > 0,
        ;
    }
    if nb * dc > nc * db {
        assert((nb * dc) * da > (nc * db) * da) by (nonlinear_arith)
            requires
                nb * dc > nc * db,
                da > 0,
        ;
        assert(na * dc > nc * da) by (nonlinear_arith)
            requires
                (na * dc) * db > (nc * da) * db,
                db > 0,
        ;
    }
}

/// The order of selection is transitive.
pub proof fn lemma_better_transitive(a: PoolTx, b: PoolTx, c: PoolTx)
    requires
        a.max_gas > 0,
        b.max_gas > 0,
        c.max_gas > 0,
        better(a, b),
        better(b, c),
    ensures
        better(a, c),
{
    lemma_ratio_chain(
        a.tip as int,
        a.max_gas as int,
        b.tip as int,
        b.max_gas as int,
        c.tip as int,
        c.max_gas as int,
    );
    if a.tip * b.max_gas == b.tip * a.max_gas && b.tip * c.max_gas == c.tip * b.max_gas {
        lemma_ratio_chain(
            c.tip as int,
            c.max_gas as int,
            b.tip as int,
            b.max_gas as int,
            a.tip as int,
            a.max_gas as int,
        );
    }
}

/// The order in which entries leave a full pool is transitive.
pub proof fn lemma_leaves_before_transitive(a: StorageEntry, b: StorageEntry, c: StorageEntry)
    requires
        a.dependents_cumulative_gas > 0,
        b.dependents_cumulative_gas > 0,
        c.dependents_cumulative_gas > 0,
        leaves_before(a, b),
        leaves_before(b, c),
    ensures
        leaves_before(a, c),
{
    lemma_ratio_chain(
        c.dependents_cumulative_tip as int,
        c.dependents_cumulative_gas as int,
        b.dependents_cumulative_tip as int,
        b.dependents_cumulative_gas as int,
        a.dependents_cumulative_tip as int,
        a.dependents_cumulative_gas as int,
    );
    if !worth_more(b, a) && !worth_more(c, b) {
        lemma_ratio_chain(
            a.dependents_cumulative_tip as int,
            a.dependents_cumulative_gas as int,
            b.dependents_cumulative_tip as int,
            b.dependents_cumulative_gas as int,
            c.dependents_cumulative_tip as int,
            c.dependents_cumulative_gas as int,
        );
    }
}

/// Whether `a` leaves a full pool before `b`.
pub fn leaves_first(a: &StorageEntry, b: &StorageEntry) -> (first: bool)
    requires
        a.dependents_cumulative_gas > 0,
        b.dependents_cumulative_gas > 0,
    ensures
        first == leaves_before(*a, *b),
{
    if ratio_gt(
        b.dependents_cumulative_tip,
        b.dependents_cumulative_gas,
        a.dependents_cumulative_tip,
        a.dependents_cumulative_gas,
    ) {
        true
    } else if ratio_gt(
        a.dependents_cumulative_tip,
        a.dependents_cumulative_gas,
        b.dependents_cumulative_tip,
        b.dependents_cumulative_gas,
    ) {
        false
    } else {
        a.transaction.id > b.transaction.id
    }
}

/// Whether `a` is selected before `b`.
pub fn is_better(a: &PoolTx, b: &PoolTx) -> (first: bool)
    requires
        a.max_gas > 0,
        b.max_gas > 0,
    ensures
        first == better(*a, *b),
{
    if ratio_gt(a.tip as u128, a.max_gas as u128, b.tip as u128, b.max_gas as u128) {
        true
    } else if ratio_gt(b.tip as u128, b.max_gas as u128, a.tip as u128, a.max_gas as u128) {
        false
    } else {
        a.id < b.id
    }
}

/// Whether one more transaction `tx` stays within `left`.
pub fn check_fits(tx: &PoolTx, left: &Constraints) -> (ok: bool)
    ensures
        ok == fits(*tx, *left),
{
    tx.max_gas <= left.max_gas && tx.metered_bytes_size <= left.maximum_block_size
        && left.maximum_txs >= 1
}

/// The executable transactions of a storage.
pub struct SelectionAlgorithm {
    pub executable: Vec<StorageIndex>,
}

impl SelectionAlgorithm {
    pub open spec fn view(&self) -> Seq<StorageIndex> {
        self.executable@
    }

    /// The list holds, each once, exactly the entries of `s` that wait for
    /// no other entry.
    pub open spec fn wf_for(&self, s: Slots) -> bool {
        &&& self@.no_duplicates()
        &&& forall|i: StorageIndex| #[trigger] self@.contains(i) <==> is_executable(s, i as int)
    }

    pub fn new() -> (selection: SelectionAlgorithm)
        ensures
            selection@.len() == 0,
    {
        SelectionAlgorithm { executable: Vec::new() }
    }

    /// Lists the slot `index` as executable.
    pub fn new_executable_transaction(&mut self, index: StorageIndex)
        requires
            !old(self)@.contains(index),
            old(self)@.no_duplicates(),
        ensures
            final(self)@ == old(self)@.push(index),
            final(self)@.no_duplicates(),
    {
        proof {
            crate::txpool::types::lemma_push_contains(self@, index);
            assert forall|a: int, b: int|
                0 <= a < self@.len() + 1 && 0 <= b < self@.len() + 1 && a != b implies self@.push(
                index,
            )[a] != self@.push(index)[b] by {
                if a == self@.len() {
                    assert(self@.contains(self@[b]));
                }
                if b == self@.len() {
                    assert(self@.contains(self@[a]));
                }
            }
        }
        self.executable.push(index);
    }

    /// Drops the slot `index` from the list, if it is there.
    pub fn on_removed_transaction(&mut self, index: StorageIndex)
        ensures
            forall|i: StorageIndex| #[trigger]
                final(self)@.contains(i) <==> (old(self)@.contains(i) && i != index),
            old(self)@.no_duplicates() ==> final(self)@.no_duplicates(),
    {
        self.executable = vec_without(&self.executable, index);
    }

    pub fn number_of_executable_transactions(&self) -> (n: usize)
        ensures
            n == self@.len(),
    {
        self.executable.len()
    }

    /// The executable transaction that goes into the block next: the best
    /// of those that fit into what is left of the budget.
    pub fn best_executable(&self, storage: &Storage, left: &Constraints) -> (best: Option<
        StorageIndex,
    >)
        requires
            storage.wf(),
            self.wf_for(storage@),
        ensures
            best.is_some() ==> is_executable(storage@, best.unwrap() as int) && fits(
                storage@[best.unwrap() as int].unwrap().transaction,
                *left,
            ),
            best.is_some() ==> forall|i: int|
                is_executable(storage@, i) && i != best.unwrap() && fits(
                    (#[trigger] storage@[i]).unwrap().transaction,
                    *left,
                ) ==> better(
                    storage@[best.unwrap() as int].unwrap().transaction,
                    storage@[i].unwrap().transaction,
                ),
            best.is_none() ==> forall|i: int|
                is_executable(storage@, i) ==> !fits(
                    (#[trigger] storage@[i]).unwrap().transaction,
                    *left,
                ),
    {
        let ghost s = storage@;
        let mut best: Option<StorageIndex> = None;
        let mut x: usize = 0;
        while x < self.executable.len()
            invariant
                x <= self.executable.len(),
                s == storage@,
                slots_wf(s),
                self.wf_for(s),
                best.is_some() ==> is_executable(s, best.unwrap() as int) && fits(
                    s[best.unwrap() as int].unwrap().transaction,
                    *left,
                ),
                best.is_some() ==> forall|y: int|
                    0 <= y < x && (#[trigger] self@[y]) != best.unwrap() && fits(
                        s[self@[y] as int].unwrap().transaction,
                        *left,
                    ) ==> better(
                        s[best.unwrap() as int].unwrap().transaction,
                        s[self@[y] as int].unwrap().transaction,
                    ),
                best.is_none() ==> forall|y: int|
                    0 <= y < x ==> !fits(s[(#[trigger] self@[y]) as int].unwrap().transaction, *left),
            decreases self.executable.len() - x,
        {
            let index: usize = self.executable[x];
            proof {
                assert(self@.contains(index));
                assert(is_executable(s, index as int));
                assert(entry_wf(s, index as int));
            }
            let candidate = storage.get(index).unwrap();
            if check_fits(&candidate.transaction, left) {
                match best {
                    None => {
                        best = Some(index);
                    },
                    Some(current) => {
                        proof {
                            assert(entry_wf(s, current as int));
                        }
                        let incumbent = storage.get(current).unwrap();
                        if is_better(&candidate.transaction, &incumbent.transaction) {
                            proof {
                                assert forall|y: int|
                                    0 <= y < x + 1 && (#[trigger] self@[y]) != index && fits(
                                        s[self@[y] as int].unwrap().transaction,
                                        *left,
                                    ) implies better(
                                    s[index as int].unwrap().transaction,
                                    s[self@[y] as int].unwrap().transaction,
                                ) by {
                                    let other = self@[y];
                                    assert(self@.contains(other));
                                    assert(entry_wf(s, other as int));
                                    if other != current {
                                        lemma_better_transitive(
                                            s[index as int].unwrap().transaction,
                                            s[current as int].unwrap().transaction,
                                            s[other as int].unwrap().transaction,
                                        );
                                    }
                                }
                            }
                            best = Some(index);
                        } else {
                            proof {
                                if index != current {
                                    let a = s[index as int].unwrap().transaction;
                                    let b = s[current as int].unwrap().transaction;
                                    assert(a.id != b.id);
                                    assert(better(b, a));
                                }
                            }
                        }
                    },
                }
            }
            x += 1;
        }
        proof {
            if best.is_some() {
                assert forall|i: int|
                    is_executable(s, i) && i != best.unwrap() && fits(
                        (#[trigger] s[i]).unwrap().transaction,
                        *left,
                    ) implies better(
                    s[best.unwrap() as int].unwrap().transaction,
                    s[i].unwrap().transaction,
                ) by {
                    assert(self@.contains(i as usize));
                    let y = choose|y: int| 0 <= y < self@.len() && self@[y] == i as usize;
                    assert(self@[y] != best.unwrap());
                }
            } else {
                assert forall|i: int| is_executable(s, i) implies !fits(
                    (#[trigger] s[i]).unwrap().transaction,
                    *left,
                ) by {
                    assert(self@.contains(i as usize));
                    let y = choose|y: int| 0 <= y < self@.len() && self@[y] == i as usize;
                    assert(!fits(s[self@[y] as int].unwrap().transaction, *left));
                }
            }
        }
        best
    }

    /// The executable transactions, those whose subtree is worth least per
    /// unit of gas first.
    pub fn get_less_worth_txs(&self, storage: &Storage) -> (order: Vec<StorageIndex>)
        requires
            storage.wf(),
            self.wf_for(storage@),
        ensures
            forall|i: StorageIndex| #[trigger] order@.contains(i) <==> is_executable(storage@, i as int),
            less_worth_order(storage@, order@),
            order@.len() == self@.len(),
    {
        let ghost s = storage@;
        let mut rest: Vec<StorageIndex> = Vec::new();
        let mut x: usize = 0;
        while x < self.executable.len()
            invariant
                x <= self.executable.len(),
                rest@ == self@.subrange(0, x as int),
            decreases self.executable.len() - x,
        {
            rest.push(self.executable[x]);
            proof {
                assert(rest@ =~= self@.subrange(0, x + 1));
            }
            x += 1;
        }
        proof {
            assert(rest@ =~= self@);
        }
        let mut order: Vec<StorageIndex> = Vec::new();
        while rest.len() > 0
            invariant
                s == storage@,
                slots_wf(s),
                self.wf_for(s),
                order@.len() + rest@.len() == self@.len(),
                forall|i: StorageIndex| #[trigger] rest@.contains(i) ==> self@.contains(i),
                forall|i: StorageIndex| #[trigger] order@.contains(i) ==> self@.contains(i),
                forall|i: StorageIndex| #[trigger]
                    self@.contains(i) ==> rest@.contains(i) || order@.contains(i),
                rest@.no_duplicates(),
                forall|a: int, y: int|
                    0 <= a < order@.len() && 0 <= y < rest@.len() ==> leaves_before(
                        s[(#[trigger] order@[a]) as int].unwrap(),
                        s[(#[trigger] rest@[y]) as int].unwrap(),
                    ),
                less_worth_order(s, order@),
            decreases rest@.len(),
        {
            proof {
                assert forall|y: int| 0 <= y < rest@.len() implies live(
                    s,
                    (#[trigger] rest@[y]) as int,
                ) by {
                    assert(rest@.contains(rest@[y]));
                    assert(self@.contains(rest@[y]));
                }
            }
            let m = least_worth_position(storage, &rest);
            let ghost before = rest@;
            let ghost out = order@;
            let least: usize = rest.swap_remove(m);
            proof {
                assert forall|i: StorageIndex| #[trigger] rest@.contains(i) implies before.contains(
                    i,
                ) by {
                    let w = choose|w: int| 0 <= w < rest@.len() && rest@[w] == i;
                    if w == m {
                        assert(before[before.len() - 1] == i);
                    } else {
                        assert(before[w] == i);
                    }
                }
                assert forall|i: StorageIndex| #[trigger] before.contains(i) implies rest@.contains(
                    i,
                ) || i == least by {
                    let w = choose|w: int| 0 <= w < before.len() && before[w] == i;
                    if w == m {
                    } else if w == before.len() - 1 {
                        assert(rest@[m as int] == i);
                    } else {
                        assert(rest@[w] == i);
                    }
                }
                assert(before.contains(least));
                crate::txpool::types::lemma_push_contains(out, least);
                assert forall|y: int| 0 <= y < rest@.len() implies leaves_before(
                    s[least as int].unwrap(),
                    s[(#[trigger] rest@[y]) as int].unwrap(),
                ) by {
                    if y == m {
                        assert(rest@[y] == before[before.len() - 1]);
                    } else {
                        assert(rest@[y] == before[y]);
                    }
                }
                assert forall|a: int, b: int|
                    0 <= a < rest@.len() && 0 <= b < rest@.len() && a != b implies rest@[a]
                    != rest@[b] by {
                    let pa = if a == m { before.len() - 1 } else { a };
                    let pb = if b == m { before.len() - 1 } else { b };
                    assert(rest@[a] == before[pa] && rest@[b] == before[pb]);
                }
                assert forall|a: int, y: int|
                    0 <= a < out.len() && 0 <= y < rest@.len() implies leaves_before(
                    s[(#[trigger] out[a]) as int].unwrap(),
                    s[(#[trigger] rest@[y]) as int].unwrap(),
                ) by {
                    if y == m {
                        assert(rest@[y] == before[before.len() - 1]);
                    } else {
                        assert(rest@[y] == before[y]);
                    }
                }
            }
            order.push(least);
        }
        proof {
            assert forall|i: StorageIndex| #[trigger] order@.contains(i) <==> is_executable(
                s,
                i as int,
            ) by {
                if is_executable(s, i as int) {
                    assert(self@.contains(i));
                    assert(rest@.contains(i) || order@.contains(i));
                    if rest@.contains(i) {
                        assert(rest@.len() > 0);
                    }
                }
                if order@.contains(i) {
                    assert(self@.contains(i));
                }
            }
        }
        order
    }
}

/// Whether each member of `order` leaves a full pool before every member
/// after it.
pub open spec fn less_worth_order(s: Slots, order: Seq<StorageIndex>) -> bool {
    forall|a: int, b: int|
        0 <= a < b < order.len() ==> leaves_before(
            s[(#[trigger] order[a]) as int].unwrap(),
            s[(#[trigger] order[b]) as int].unwrap(),
        )
}

/// The order is determined by the entries: two lists of the same members
/// in which each member leaves before every later one are the same list.
pub proof fn lemma_less_worth_order_unique(s: Slots, o1: Seq<StorageIndex>, o2: Seq<StorageIndex>)
    requires
        less_worth_order(s, o1),
        less_worth_order(s, o2),
        forall|i: StorageIndex| o1.contains(i) <==> o2.contains(i),
    ensures
        o1 == o2,
    decreases o1.len(),
{
    if o1.len() == 0 {
        if o2.len() > 0 {
            assert(o2.contains(o2[0]));
        }
        assert(o1 =~= o2);
    } else if o2.len() == 0 {
        assert(o1.contains(o1[0]));
    } else {
        assert(o1.contains(o1[0]));
        assert(o2.contains(o2[0]));
        let p = choose|p: int| 0 <= p < o2.len() && o2[p] == o1[0];
        let q = choose|q: int| 0 <= q < o1.len() && o1[q] == o2[0];
        if p > 0 {
            assert(leaves_before(s[o2[0] as int].unwrap(), s[o2[p] as int].unwrap()));
            if q > 0 {
                assert(leaves_before(s[o1[0] as int].unwrap(), s[o1[q] as int].unwrap()));
            }
        }
        assert(o1[0] == o2[0]);
        let t1 = o1.subrange(1, o1.len() as int);
        let t2 = o2.subrange(1, o2.len() as int);
        assert forall|i: StorageIndex| t1.contains(i) <==> t2.contains(i) by {
            if t1.contains(i) {
                let w = choose|w: int| 0 <= w < t1.len() && t1[w] == i;
                assert(o1[w + 1] == i);
                assert(leaves_before(s[o1[0] as int].unwrap(), s[o1[w + 1] as int].unwrap()));
                assert(o1.contains(i));
                let v = choose|v: int| 0 <= v < o2.len() && o2[v] == i;
                assert(v > 0);
                assert(t2[v - 1] == i);
            }
            if t2.contains(i) {
                let w = choose|w: int| 0 <= w < t2.len() && t2[w] == i;
                assert(o2[w + 1] == i);
                assert(leaves_before(s[o2[0] as int].unwrap(), s[o2[w + 1] as int].unwrap()));
                assert(o2.contains(i));
                let v = choose|v: int| 0 <= v < o1.len() && o1[v] == i;
                assert(v > 0);
                assert(t1[v - 1] == i);
            }
        }
        assert forall|a: int, b: int| 0 <= a < b < t1.len() implies leaves_before(
            s[(#[trigger] t1[a]) as int].unwrap(),
            s[(#[trigger] t1[b]) as int].unwrap(),
        ) by {
            assert(t1[a] == o1[a + 1] && t1[b] == o1[b + 1]);
        }
        assert forall|a: int, b: int| 0 <= a < b < t2.len() implies leaves_before(
            s[(#[trigger] t2[a]) as int].unwrap(),
            s[(#[trigger] t2[b]) as int].unwrap(),
        ) by {
            assert(t2[a] == o2[a + 1] && t2[b] == o2[b + 1]);
        }
        lemma_less_worth_order_unique(s, t1, t2);
        assert(o1 =~= seq![o1[0]] + t1);
        assert(o2 =~= seq![o2[0]] + t2);
    }
}

/// The position in `rest` of the entry that leaves a full pool before
/// every other member of `rest`.
pub fn least_worth_position(storage: &Storage, rest: &Vec<StorageIndex>) -> (at: usize)
    requires
        storage.wf(),
        rest@.len() > 0,
        rest@.no_duplicates(),
        forall|y: int| 0 <= y < rest@.len() ==> live(storage@, (#[trigger] rest@[y]) as int),
    ensures
        at < rest@.len(),
        forall|y: int|
            0 <= y < rest@.len() && y != at ==> leaves_before(
                storage@[rest@[at as int] as int].unwrap(),
                storage@[(#[trigger] rest@[y]) as int].unwrap(),
            ),
{
    let ghost s = storage@;
    let mut at: usize = 0;
    let mut x: usize = 1;
    while x < rest.len()
        invariant
            1 <= x <= rest.len(),
            at < x,
            s == storage@,
            slots_wf(s),
            rest@.no_duplicates(),
            forall|y: int| 0 <= y < rest@.len() ==> live(s, (#[trigger] rest@[y]) as int),
            forall|y: int|
                0 <= y < x && y != at ==> leaves_before(
                    s[rest@[at as int] as int].unwrap(),
                    s[(#[trigger] rest@[y]) as int].unwrap(),
                ),
        decreases rest.len() - x,
    {
        proof {
            lemma_gas_positive(s, rest@[x as int] as int);
            lemma_gas_positive(s, rest@[at as int] as int);
        }
        let candidate = storage.get(rest[x]).unwrap();
        let incumbent = storage.get(rest[at]).unwrap();
        if leaves_first(candidate, incumbent) {
            proof {
                assert forall|y: int| 0 <= y < x + 1 && y != x implies leaves_before(
                    s[rest@[x as int] as int].unwrap(),
                    s[(#[trigger] rest@[y]) as int].unwrap(),
                ) by {
                    lemma_gas_positive(s, rest@[y] as int);
                    if y != at {
                        lemma_leaves_before_transitive(
                            s[rest@[x as int] as int].unwrap(),
                            s[rest@[at as int] as int].unwrap(),
                            s[rest@[y] as int].unwrap(),
                        );
                    }
                }
            }
            at = x;
        } else {
            proof {
                let a = s[rest@[x as int] as int].unwrap();
                let b = s[rest@[at as int] as int].unwrap();
                assert(rest@[x as int] != rest@[at as int]);
                assert(a.transaction.id != b.transaction.id);
                assert(leaves_before(b, a));
            }
        }
        x += 1;
    }
    at
}

/// The summed gas of a subtree is positive, as the gas of its root is.
pub proof fn lemma_gas_positive(s: Slots, i: int)
    requires
        slots_wf(s),
        live(s, i),
    ensures
        s[i].unwrap().dependents_cumulative_gas > 0,
        s[i].unwrap().transaction.max_gas > 0,
{
    assert(entry_wf(s, i));
    lemma_sum_bounds(s, false, i as usize, 1, i, s.len() as int);
}

} // verus!
