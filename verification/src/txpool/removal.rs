//! Removal of transactions together with everything that depends on them.

use vstd::prelude::*;
use crate::txpool::error::{Error, SkipCause};
use crate::txpool::pool::Pool;
use crate::txpool::storage::{
    entry_wf, holds_id, in_subtree, live, slots_wf, unlinked, unlinked_node, Slots, StorageEntry,
};
use crate::txpool::types::{lemma_push_contains, Input, PoolTx, ResourceKey, StorageIndex, TxId};

verus! {

/// `s1` is `s0` after some entries have left: who stays keeps its
/// transaction, and depends on what it depended on and is still there.
pub open spec fn pruned(s0: Slots, s1: Slots) -> bool {
    &&& s1.len() == s0.len()
    &&& forall|j: int| #[trigger]
        live(s1, j) ==> live(s0, j) && s1[j].unwrap().transaction == s0[j].unwrap().transaction
            && s1[j].unwrap().creation_instant == s0[j].unwrap().creation_instant && forall|
            d: StorageIndex,
        | #[trigger]
            s1[j].unwrap().dependencies@.contains(d) <==> (s0[j].unwrap().dependencies@.contains(d)
                && live(s1, d as int))
}

/// A well-formed storage is pruned from itself.
pub proof fn lemma_pruned_refl(s: Slots)
    requires
        slots_wf(s),
    ensures
        pruned(s, s),
{
    assert forall|j: int| #[trigger] live(s, j) implies forall|d: StorageIndex| #[trigger]
        s[j].unwrap().dependencies@.contains(d) <==> (s[j].unwrap().dependencies@.contains(d)
            && live(s, d as int)) by {
        assert(entry_wf(s, j));
    }
}

/// Removing one more entry keeps a storage pruned from where it started.
pub proof fn lemma_pruned_step(s0: Slots, s1: Slots, s2: Slots, p: int)
    requires
        pruned(s0, s1),
        unlinked(s1, s2, p),
    ensures
        pruned(s0, s2),
        forall|j: int| live(s2, j) <==> (live(s1, j) && j != p),
{
    assert forall|j: int| live(s2, j) <==> (live(s1, j) && j != p) by {
        if 0 <= j < s2.len() && j != p {
            assert(unlinked_node(s1, s2[j], j, p));
        }
    }
    assert forall|j: int| #[trigger] live(s2, j) implies live(s0, j) && s2[j].unwrap().transaction
        == s0[j].unwrap().transaction && s2[j].unwrap().creation_instant
        == s0[j].unwrap().creation_instant && forall|d: StorageIndex| #[trigger]
        s2[j].unwrap().dependencies@.contains(d) <==> (s0[j].unwrap().dependencies@.contains(d)
            && live(s2, d as int)) by {
        assert(unlinked_node(s1, s2[j], j, p));
        assert(live(s1, j));
        assert forall|d: StorageIndex| #[trigger]
            s2[j].unwrap().dependencies@.contains(d) <==> (s0[j].unwrap().dependencies@.contains(d)
                && live(s2, d as int)) by {
            if 0 <= d < s2.len() && d != p {
                assert(unlinked_node(s1, s2[d as int], d as int, p));
            }
        }
    }
}

/// Whether `s` holds the transaction `t`.
pub open spec fn holds_tx(s: Slots, t: PoolTx) -> bool {
    exists|j: int| live(s, j) && (#[trigger] s[j]).unwrap().transaction == t
}

/// Whether the transaction `t` of `s0` is gone in `s1`.
pub open spec fn gone(s0: Slots, s1: Slots, t: PoolTx) -> bool {
    holds_tx(s0, t) && !holds_id(s1, t.id)
}

/// `removed` holds exactly the transactions of `s0` that are gone in `s1`.
pub open spec fn holds_removed(s0: Slots, s1: Slots, removed: Seq<PoolTx>) -> bool {
    forall|t: PoolTx| #[trigger] removed.contains(t) <==> gone(s0, s1, t)
}

/// What has gone over two rounds of removals is what went in the first or
/// in the second.
pub proof fn lemma_gone_compose(s0: Slots, s1: Slots, s2: Slots)
    requires
        slots_wf(s0),
        pruned(s0, s1),
        pruned(s1, s2),
    ensures
        pruned(s0, s2),
        forall|t: PoolTx| gone(s0, s2, t) <==> (gone(s0, s1, t) || gone(s1, s2, t)),
{
    assert forall|j: int| #[trigger] live(s2, j) implies live(s0, j) && s2[j].unwrap().transaction
        == s0[j].unwrap().transaction && s2[j].unwrap().creation_instant
        == s0[j].unwrap().creation_instant && forall|d: StorageIndex| #[trigger]
        s2[j].unwrap().dependencies@.contains(d) <==> (s0[j].unwrap().dependencies@.contains(d)
            && live(s2, d as int)) by {
        assert(live(s1, j));
        assert forall|d: StorageIndex| #[trigger]
            s2[j].unwrap().dependencies@.contains(d) <==> (s0[j].unwrap().dependencies@.contains(d)
                && live(s2, d as int)) by {
            if live(s2, d as int) {
                assert(live(s1, d as int));
            }
        }
    }
    assert forall|t: PoolTx| gone(s0, s2, t) <==> (gone(s0, s1, t) || gone(s1, s2, t)) by {
        if holds_id(s2, t.id) {
            let j = choose|j: int| live(s2, j) && (#[trigger] s2[j]).unwrap().transaction.id == t.id;
            assert(live(s1, j));
            assert(s1[j].unwrap().transaction.id == t.id);
        }
        if holds_tx(s1, t) {
            let j = choose|j: int| live(s1, j) && (#[trigger] s1[j]).unwrap().transaction == t;
            assert(live(s0, j) && s0[j].unwrap().transaction == t);
        }
        if gone(s0, s2, t) && holds_id(s1, t.id) {
            let j = choose|j: int| live(s1, j) && (#[trigger] s1[j]).unwrap().transaction.id == t.id;
            let i = choose|i: int| live(s0, i) && (#[trigger] s0[i]).unwrap().transaction == t;
            assert(live(s0, j));
            assert(s0[j].unwrap().transaction.id == s0[i].unwrap().transaction.id);
            assert(i == j);
            assert(s1[j].unwrap().transaction == t);
        }
    }
}

/// The transactions of `entries`, in their order.
pub open spec fn transactions_of(entries: Seq<StorageEntry>) -> Seq<PoolTx> {
    Seq::new(entries.len(), |y: int| entries[y].transaction)
}

impl Pool {
    /// Removes the entry in slot `root` together with every entry that
    /// depends on it, and hands the removed entries out.
    pub fn remove_transaction_and_dependents_subtree(&mut self, root: StorageIndex) -> (removed: Vec<
        StorageEntry,
    >)
        requires
            old(self).wf(),
        ensures
            final(self).wf(),
            final(self).config == old(self).config,
            final(self).spent_inputs == old(self).spent_inputs,
            final(self).extracted_outputs == old(self).extracted_outputs,
            pruned(old(self).storage@, final(self).storage@),
            forall|j: int|
                live(final(self).storage@, j) <==> (live(old(self).storage@, j) && !in_subtree(
                    old(self).storage@,
                    root,
                    j,
                )),
            holds_removed(old(self).storage@, final(self).storage@, transactions_of(removed@)),
            final(self).current_txs() == old(self).current_txs() - removed@.len(),
    {
        let ghost s0 = self.storage@;
        let members = self.storage.subtree(root);
        let mut removed: Vec<StorageEntry> = Vec::new();
        let mut x: usize = 0;
        proof {
            lemma_pruned_refl(s0);
        }
        while x < members.len()
            invariant
                x <= members.len(),
                self.wf(),
                self.config == old(self).config,
                self.spent_inputs == old(self).spent_inputs,
                self.extracted_outputs == old(self).extracted_outputs,
                pruned(s0, self.storage@),
                members@.no_duplicates(),
                forall|y: int| 0 <= y < members@.len() ==> live(s0, #[trigger] members@[y] as int),
                forall|j: int|
                    live(self.storage@, j) <==> (live(s0, j) && !members@.subrange(
                        0,
                        x as int,
                    ).contains(j as usize)),
                removed@.len() == x,
                forall|y: int|
                    0 <= y < x ==> (#[trigger] removed@[y]).transaction == s0[members@[y] as int].unwrap().transaction,
                self.current_txs() == old(self).current_txs() - x,
            decreases members.len() - x,
        {
            let index: usize = members[x];
            let ghost s1 = self.storage@;
            proof {
                if members@.subrange(0, x as int).contains(index) {
                    let w = choose|w: int|
                        0 <= w < x && members@.subrange(0, x as int)[w] == index;
                    assert(members@[w] == members@[x as int]);
                }
                assert(live(s1, index as int));
            }
            let entry = self.remove_entry(index);
            proof {
                let s2 = self.storage@;
                lemma_pruned_step(s0, s1, s2, index as int);
                assert(members@.subrange(0, x + 1) =~= members@.subrange(0, x as int).push(index));
                lemma_push_contains(members@.subrange(0, x as int), index);
            }
            removed.push(entry);
            x += 1;
        }
        proof {
            assert(members@.subrange(0, members@.len() as int) =~= members@);
            lemma_subtree_removed(s0, self.storage@, root, members@, removed@);
            assert(slots_wf(s0));
        }
        removed
    }
}

/// Once the entries in the slots `members`, the subtree of `root` in `s0`,
/// have been taken out one by one into `removed`, exactly that subtree is gone.
pub proof fn lemma_subtree_removed(
    s0: Slots,
    s1: Slots,
    root: StorageIndex,
    members: Seq<StorageIndex>,
    removed: Seq<StorageEntry>,
)
    requires
        slots_wf(s0),
        pruned(s0, s1),
        forall|j: StorageIndex| #[trigger] members.contains(j) <==> in_subtree(s0, root, j as int),
        forall|j: int| live(s1, j) <==> (live(s0, j) && !members.contains(j as usize)),
        removed.len() == members.len(),
        forall|y: int|
            0 <= y < members.len() ==> (#[trigger] removed[y]).transaction == s0[members[y] as int].unwrap().transaction,
    ensures
        forall|j: int| live(s1, j) <==> (live(s0, j) && !in_subtree(s0, root, j)),
        holds_removed(s0, s1, transactions_of(removed)),
{
    let txs = transactions_of(removed);
    assert forall|j: int| live(s1, j) <==> (live(s0, j) && !in_subtree(s0, root, j)) by {
        if live(s0, j) {
            assert(members.contains(j as usize) <==> in_subtree(s0, root, j));
        }
    }
    assert forall|t: PoolTx| #[trigger] txs.contains(t) <==> gone(s0, s1, t) by {
        if txs.contains(t) {
            let y = choose|y: int| 0 <= y < txs.len() && txs[y] == t;
            let j = members[y] as int;
            assert(members.contains(members[y]));
            assert(in_subtree(s0, root, j));
            assert(txs[y] == removed[y].transaction);
            assert(live(s0, j) && s0[j].unwrap().transaction == t);
            if holds_id(s1, t.id) {
                let i = choose|i: int|
                    live(s1, i) && (#[trigger] s1[i]).unwrap().transaction.id == t.id;
                assert(live(s0, i));
                assert(s0[i].unwrap().transaction.id == s0[j].unwrap().transaction.id);
                assert(i == j);
            }
        }
        if gone(s0, s1, t) {
            let j = choose|j: int| live(s0, j) && (#[trigger] s0[j]).unwrap().transaction == t;
            if live(s1, j) {
                assert(s1[j].unwrap().transaction.id == t.id);
            }
            assert(members.contains(j as usize));
            let y = choose|y: int| 0 <= y < members.len() && members[y] == j as usize;
            assert(txs[y] == removed[y].transaction);
            assert(txs[y] == t);
        }
    }
}

/// Whether slot `j` is in the subtree of one of the first `n` of `roots`.
pub open spec fn under_any(s: Slots, roots: Seq<StorageIndex>, n: int, j: int) -> bool {
    exists|x: int| 0 <= x < n && x < roots.len() && #[trigger] in_subtree(s, roots[x], j)
}

/// With the subtrees of the first `x` of `roots` gone from `s0`, the
/// subtree of the next root is in `s1` what is left of its subtree in `s0`.
pub proof fn lemma_next_subtree(s0: Slots, s1: Slots, roots: Seq<StorageIndex>, x: int, j: int)
    requires
        slots_wf(s0),
        pruned(s0, s1),
        0 <= x < roots.len(),
        forall|i: int| live(s1, i) <==> (live(s0, i) && !under_any(s0, roots, x, i)),
        live(s1, j),
    ensures
        in_subtree(s1, roots[x], j) <==> in_subtree(s0, roots[x], j),
{
    let r = roots[x];
    assert(live(s0, j));
    assert(entry_wf(s0, j));
    if in_subtree(s0, r, j) && j != r {
        assert(s0[j].unwrap().dependencies@.contains(r));
        assert(live(s0, r as int));
        if !live(s1, r as int) {
            assert(under_any(s0, roots, x, r as int));
            let w = choose|w: int|
                0 <= w < x && w < roots.len() && #[trigger] in_subtree(s0, roots[w], r as int);
            if r != roots[w] {
                assert(s0[r as int].unwrap().dependencies@.contains(roots[w]));
                assert(s0[j].unwrap().dependencies@.contains(roots[w]));
            }
            assert(in_subtree(s0, roots[w], j));
            assert(under_any(s0, roots, x, j));
        }
    }
}

/// Moves the transactions of `entries` to the end of `out`.
pub fn collect_transactions(out: &mut Vec<PoolTx>, entries: Vec<StorageEntry>)
    ensures
        forall|t: PoolTx| #[trigger]
            final(out)@.contains(t) <==> (old(out)@.contains(t) || transactions_of(
                entries@,
            ).contains(t)),
        final(out)@.len() == old(out)@.len() + entries@.len(),
{
    let ghost all = transactions_of(entries@);
    let mut entries = entries;
    while entries.len() > 0
        invariant
            entries@.len() <= all.len(),
            out@.len() + entries@.len() == old(out)@.len() + all.len(),
            transactions_of(entries@) == all.subrange(0, entries@.len() as int),
            forall|t: PoolTx| #[trigger]
                out@.contains(t) <==> (old(out)@.contains(t) || all.subrange(
                    entries@.len() as int,
                    all.len() as int,
                ).contains(t)),
        decreases entries@.len(),
    {
        let ghost n = entries@.len() as int;
        let ghost before = entries@;
        let e = entries.pop().unwrap();
        proof {
            assert(transactions_of(before)[n - 1] == e.transaction);
            assert(all[n - 1] == e.transaction);
            assert(transactions_of(entries@) =~= all.subrange(0, n - 1));
            lemma_push_contains(out@, e.transaction);
            let tail = all.subrange(n, all.len() as int);
            let longer = all.subrange(n - 1, all.len() as int);
            assert forall|t: PoolTx| #[trigger] longer.contains(t) <==> (tail.contains(t) || t
                == e.transaction) by {
                if longer.contains(t) {
                    let w = choose|w: int| 0 <= w < longer.len() && longer[w] == t;
                    if w > 0 {
                        assert(tail[w - 1] == t);
                    }
                }
                if tail.contains(t) {
                    let w = choose|w: int| 0 <= w < tail.len() && tail[w] == t;
                    assert(longer[w + 1] == t);
                }
                if t == e.transaction {
                    assert(longer[0] == t);
                }
            }
        }
        out.push(e.transaction);
    }
    proof {
        assert(all.subrange(0, all.len() as int) =~= all);
    }
}

impl Pool {
    /// Removes the subtree of each of `roots` in turn and adds the removed
    /// transactions to `removed`.
    pub fn remove_subtrees(&mut self, roots: &Vec<StorageIndex>, removed: &mut Vec<PoolTx>)
        requires
            old(self).wf(),
        ensures
            final(self).wf(),
            final(self).config == old(self).config,
            final(self).spent_inputs == old(self).spent_inputs,
            final(self).extracted_outputs == old(self).extracted_outputs,
            pruned(old(self).storage@, final(self).storage@),
            forall|j: int|
                live(final(self).storage@, j) <==> (live(old(self).storage@, j) && !under_any(
                    old(self).storage@,
                    roots@,
                    roots@.len() as int,
                    j,
                )),
            forall|t: PoolTx| #[trigger]
                final(removed)@.contains(t) <==> (old(removed)@.contains(t) || gone(
                    old(self).storage@,
                    final(self).storage@,
                    t,
                )),
            final(self).current_txs() + final(removed)@.len() == old(self).current_txs() + old(
                removed,
            )@.len(),
    {
        let ghost s0 = self.storage@;
        proof {
            lemma_pruned_refl(s0);
            assert forall|t: PoolTx| !gone(s0, s0, t) by {
                if holds_tx(s0, t) {
                    let j = choose|j: int| live(s0, j) && (#[trigger] s0[j]).unwrap().transaction == t;
                    assert(s0[j].unwrap().transaction.id == t.id);
                }
            }
        }
        let mut x: usize = 0;
        while x < roots.len()
            invariant
                x <= roots.len(),
                self.wf(),
                slots_wf(s0),
                self.config == old(self).config,
                self.spent_inputs == old(self).spent_inputs,
                self.extracted_outputs == old(self).extracted_outputs,
                pruned(s0, self.storage@),
                forall|j: int|
                    live(self.storage@, j) <==> (live(s0, j) && !under_any(s0, roots@, x as int, j)),
                forall|t: PoolTx| #[trigger]
                    removed@.contains(t) <==> (old(removed)@.contains(t) || gone(
                        s0,
                        self.storage@,
                        t,
                    )),
                self.current_txs() + removed@.len() == old(self).current_txs() + old(removed)@.len(),
            decreases roots.len() - x,
        {
            let ghost s1 = self.storage@;
            let entries = self.remove_transaction_and_dependents_subtree(roots[x]);
            let ghost s2 = self.storage@;
            collect_transactions(removed, entries);
            proof {
                lemma_gone_compose(s0, s1, s2);
                assert forall|j: int|
                    live(s2, j) <==> (live(s0, j) && !under_any(s0, roots@, x + 1, j)) by {
                    if live(s1, j) {
                        lemma_next_subtree(s0, s1, roots@, x as int, j);
                    }
                    if under_any(s0, roots@, x + 1, j) {
                        let w = choose|w: int|
                            0 <= w < x + 1 && w < roots@.len() && #[trigger] in_subtree(
                                s0,
                                roots@[w],
                                j,
                            );
                        if w < x {
                            assert(under_any(s0, roots@, x as int, j));
                        }
                    }
                    if live(s0, j) && !live(s2, j) {
                        if live(s1, j) {
                            assert(in_subtree(s0, roots@[x as int], j));
                        } else {
                            let w = choose|w: int|
                                0 <= w < x && w < roots@.len() && #[trigger] in_subtree(
                                    s0,
                                    roots@[w],
                                    j,
                                );
                            assert(in_subtree(s0, roots@[w], j));
                        }
                    }
                }
            }
            x += 1;
        }
    }
}

/// With the entry in slot `p` taken out, exactly its transaction is gone.
pub proof fn lemma_gone_one(s1: Slots, s2: Slots, p: int)
    requires
        slots_wf(s1),
        unlinked(s1, s2, p),
    ensures
        pruned(s1, s2),
        forall|t: PoolTx| gone(s1, s2, t) <==> t == s1[p].unwrap().transaction,
{
    lemma_pruned_refl(s1);
    lemma_pruned_step(s1, s1, s2, p);
    assert forall|t: PoolTx| gone(s1, s2, t) <==> t == s1[p].unwrap().transaction by {
        if holds_id(s2, t.id) {
            let j = choose|j: int| live(s2, j) && (#[trigger] s2[j]).unwrap().transaction.id == t.id;
            assert(unlinked_node(s1, s2[j], j, p));
        }
        if t == s1[p].unwrap().transaction {
            assert(holds_tx(s1, t));
        }
        if holds_tx(s1, t) && t != s1[p].unwrap().transaction {
            let j = choose|j: int| live(s1, j) && (#[trigger] s1[j]).unwrap().transaction == t;
            assert(unlinked_node(s1, s2[j], j, p));
            assert(live(s2, j));
            assert(s2[j].unwrap().transaction.id == t.id);
        }
    }
}

/// Whether the entry in slot `j` leaves with the skipped transaction `id`:
/// it is that transaction, spends one of its outputs, or depends on an entry
/// that is or does.
pub open spec fn leaves_with(s: Slots, id: TxId, j: int) -> bool {
    exists|i: int|
        live(s, i) && ((#[trigger] s[i]).unwrap().transaction.id == id || s[i].unwrap().transaction.spends_output_of(
            id,
        )) && in_subtree(s, i as usize, j)
}

/// After the subtree of the skipped transaction `id` has left `s0`, giving
/// `s1`, and then the subtrees of `spenders`, the entries of `s1` that spend
/// an output of `id`, giving `s2`, exactly the entries that leave with `id`
/// are gone.
pub proof fn lemma_skipped_leaves(
    s0: Slots,
    s1: Slots,
    s2: Slots,
    id: TxId,
    own: Seq<StorageIndex>,
    spenders: Seq<StorageIndex>,
    j: int,
)
    requires
        slots_wf(s0),
        pruned(s0, s1),
        own.len() <= 1,
        own.len() == 1 <==> holds_id(s0, id),
        own.len() == 1 ==> live(s0, own[0] as int) && s0[own[0] as int].unwrap().transaction.id
            == id,
        forall|x: int| live(s1, x) <==> (live(s0, x) && !under_any(s0, own, own.len() as int, x)),
        forall|x: int|
            live(s2, x) <==> (live(s1, x) && !under_any(s1, spenders, spenders.len() as int, x)),
        forall|i: StorageIndex| #[trigger]
            spenders.contains(i) <==> (live(s1, i as int) && s1[i as int].unwrap().transaction.spends_output_of(
                id,
            )),
    ensures
        live(s2, j) <==> (live(s0, j) && !leaves_with(s0, id, j)),
{
    if live(s0, j) {
        assert(entry_wf(s0, j));
        if leaves_with(s0, id, j) {
            let i = choose|i: int|
                live(s0, i) && ((#[trigger] s0[i]).unwrap().transaction.id == id || s0[i].unwrap().transaction.spends_output_of(
                    id,
                )) && in_subtree(s0, i as usize, j);
            assert(entry_wf(s0, i));
            if s0[i].unwrap().transaction.id == id {
                assert(own[0] == i);
                assert(in_subtree(s0, own[0], j));
                assert(under_any(s0, own, own.len() as int, j));
            } else if live(s1, j) {
                if live(s1, i) {
                    assert(spenders.contains(i as usize));
                    let w = choose|w: int| 0 <= w < spenders.len() && spenders[w] == i as usize;
                    assert(in_subtree(s1, spenders[w], j));
                    assert(under_any(s1, spenders, spenders.len() as int, j));
                } else {
                    assert(under_any(s0, own, own.len() as int, i));
                    let q = own[0];
                    assert(in_subtree(s0, q, i));
                    if j != i {
                        assert(s0[j].unwrap().dependencies@.contains(i as usize));
                        if i != q {
                            assert(s0[i].unwrap().dependencies@.contains(q));
                            assert(s0[j].unwrap().dependencies@.contains(q));
                        }
                        assert(in_subtree(s0, q, j));
                        assert(under_any(s0, own, own.len() as int, j));
                    }
                }
            }
        } else {
            if under_any(s0, own, own.len() as int, j) {
                let w = choose|w: int|
                    0 <= w < own.len() && w < own.len() && #[trigger] in_subtree(s0, own[w], j);
                assert(in_subtree(s0, own[0], j));
                assert(live(s0, own[0] as int));
            }
            assert(live(s1, j));
            if under_any(s1, spenders, spenders.len() as int, j) {
                let w = choose|w: int|
                    0 <= w < spenders.len() && w < spenders.len() && #[trigger] in_subtree(
                        s1,
                        spenders[w],
                        j,
                    );
                let i = spenders[w];
                assert(spenders.contains(i));
                assert(live(s0, i as int));
                assert(in_subtree(s0, i, j));
            }
        }
    }
}

/// What left the pool with a skipped transaction.
pub struct SkippedRemoval {
    /// The skipped transaction, if it was pooled, and what depended on it.
    pub removed: Vec<PoolTx>,
    /// Why those left.
    pub removed_reason: Error,
    /// The pooled transactions that spent its outputs, and what depended
    /// on them.
    pub dependents: Vec<PoolTx>,
    /// Why those left.
    pub dependents_reason: Error,
}

impl Pool {
    /// Remove each of the transactions `tx_ids` that is pooled, with
    /// everything that depends on it, and hand out what was removed.
    pub fn remove_transactions_and_dependents(&mut self, tx_ids: &Vec<TxId>) -> (removed: Vec<PoolTx>)
        requires
            old(self).wf(),
        ensures
            final(self).wf(),
            final(self).config == old(self).config,
            final(self).spent_inputs == old(self).spent_inputs,
            final(self).extracted_outputs == old(self).extracted_outputs,
            pruned(old(self).storage@, final(self).storage@),
            holds_removed(old(self).storage@, final(self).storage@, removed@),
            final(self).current_txs() + removed@.len() == old(self).current_txs(),
            forall|j: int|
                live(final(self).storage@, j) <==> (live(old(self).storage@, j) && !(exists|i: int|
                    live(old(self).storage@, i) && tx_ids@.contains(
                        (#[trigger] old(self).storage@[i]).unwrap().transaction.id,
                    ) && in_subtree(old(self).storage@, i as usize, j))),
    {
        let ghost s0 = self.storage@;
        let mut roots: Vec<StorageIndex> = Vec::new();
        let mut x: usize = 0;
        while x < tx_ids.len()
            invariant
                x <= tx_ids.len(),
                self.wf(),
                *self == *old(self),
                self.storage@ == s0,
                forall|y: int|
                    0 <= y < roots@.len() ==> live(s0, (#[trigger] roots@[y]) as int) && tx_ids@.contains(
                        s0[roots@[y] as int].unwrap().transaction.id,
                    ),
                forall|i: int|
                    live(s0, i) && tx_ids@.subrange(0, x as int).contains(
                        (#[trigger] s0[i]).unwrap().transaction.id,
                    ) ==> roots@.contains(i as usize),
            decreases tx_ids.len() - x,
        {
            let id: TxId = tx_ids[x];
            let ghost found_before = roots@;
            proof {
                assert(tx_ids@.subrange(0, x + 1) =~= tx_ids@.subrange(0, x as int).push(id));
                lemma_push_contains(tx_ids@.subrange(0, x as int), id);
                assert(tx_ids@.contains(id));
            }
            match self.find(id) {
                Some(index) => {
                    proof {
                        lemma_push_contains(roots@, index);
                    }
                    roots.push(index);
                },
                None => {},
            }
            proof {
                assert forall|i: int|
                    live(s0, i) && tx_ids@.subrange(0, x + 1).contains(
                        (#[trigger] s0[i]).unwrap().transaction.id,
                    ) implies roots@.contains(i as usize) by {
                    let own = s0[i].unwrap().transaction.id;
                    if tx_ids@.subrange(0, x as int).contains(own) {
                        assert(found_before.contains(i as usize));
                    } else {
                        assert(own == id);
                        assert(holds_id(s0, id));
                    }
                }
                assert forall|y: int| 0 <= y < roots@.len() implies live(
                    s0,
                    (#[trigger] roots@[y]) as int,
                ) && tx_ids@.contains(s0[roots@[y] as int].unwrap().transaction.id) by {
                    if y < found_before.len() {
                        assert(roots@[y] == found_before[y]);
                    }
                }
            }
            x += 1;
        }
        proof {
            assert(tx_ids@.subrange(0, tx_ids@.len() as int) =~= tx_ids@);
        }
        let mut removed: Vec<PoolTx> = Vec::new();
        self.remove_subtrees(&roots, &mut removed);
        proof {
            let s1 = self.storage@;
            let n = roots@.len() as int;
            assert forall|j: int|
                under_any(s0, roots@, n, j) <==> (exists|i: int|
                    live(s0, i) && tx_ids@.contains((#[trigger] s0[i]).unwrap().transaction.id)
                        && in_subtree(s0, i as usize, j)) by {
                if under_any(s0, roots@, n, j) {
                    let w = choose|w: int|
                        0 <= w < n && w < roots@.len() && #[trigger] in_subtree(s0, roots@[w], j);
                    let i = roots@[w] as int;
                    assert(live(s0, i) && tx_ids@.contains(s0[i].unwrap().transaction.id)
                        && in_subtree(s0, i as usize, j));
                }
                if exists|i: int|
                    live(s0, i) && tx_ids@.contains((#[trigger] s0[i]).unwrap().transaction.id)
                        && in_subtree(s0, i as usize, j) {
                    let i = choose|i: int|
                        live(s0, i) && tx_ids@.contains((#[trigger] s0[i]).unwrap().transaction.id)
                            && in_subtree(s0, i as usize, j);
                    assert(roots@.contains(i as usize));
                    let w = choose|w: int| 0 <= w < roots@.len() && roots@[w] == i as usize;
                    assert(in_subtree(s0, roots@[w], j));
                }
            }
        }
        removed
    }

    /// Removes a transaction that a block was built without: the
    /// transaction itself, if it is still pooled, with what depends on it;
    /// its outputs are no longer extracted and its tentative spend is taken
    /// back; then every pooled transaction that spends one of its outputs
    /// leaves, with what depends on it.
    pub fn remove_skipped_transaction(&mut self, id: TxId) -> (out: SkippedRemoval)
        requires
            old(self).wf(),
        ensures
            final(self).wf(),
            final(self).config == old(self).config,
            pruned(old(self).storage@, final(self).storage@),
            !holds_id(final(self).storage@, id),
            forall|j: int|
                live(final(self).storage@, j) ==> !(#[trigger] final(self).storage@[j]).unwrap().transaction.spends_output_of(
                    id,
                ),
            forall|j: int|
                live(final(self).storage@, j) <==> (live(old(self).storage@, j) && !leaves_with(
                    old(self).storage@,
                    id,
                    j,
                )),
            !final(self).spent_inputs.spec_is_spent_tx(id),
            forall|input: Input|
                old(self).spent_inputs.spender_of_inputs@.contains((id, input))
                    ==> !final(self).spent_inputs.spec_is_spent_input(input),
            !final(self).extracted_outputs.knows(id),
            final(self).current_txs() + out.removed@.len() + out.dependents@.len() == old(
                self,
            ).current_txs(),
            out.removed_reason == Error::SkippedTransaction(SkipCause::Skipped(id)),
            out.dependents_reason == Error::SkippedTransaction(SkipCause::ParentSkipped(id)),
            forall|t: PoolTx|
                (#[trigger] out.removed@.contains(t) || #[trigger] out.dependents@.contains(t)) <==> gone(
                    old(self).storage@,
                    final(self).storage@,
                    t,
                ),
    {
        let ghost s0 = self.storage@;
        let mut removed: Vec<PoolTx> = Vec::new();
        let mut own: Vec<StorageIndex> = Vec::new();
        match self.find(id) {
            Some(index) => {
                own.push(index);
            },
            None => {},
        }
        self.remove_subtrees(&own, &mut removed);
        let ghost s1 = self.storage@;
        proof {
            if holds_id(s1, id) {
                let j = choose|j: int| live(s1, j) && (#[trigger] s1[j]).unwrap().transaction.id == id;
                assert(live(s0, j) && s0[j].unwrap().transaction.id == id);
                assert(own@.len() == 1);
                assert(in_subtree(s0, own@[0], j));
                assert(under_any(s0, own@, 1, j));
            }
        }
        self.extracted_outputs.new_skipped_transaction(id);
        self.spent_inputs.unspend_inputs(id);
        let spenders = self.collision_manager.get_coins_spenders(id);
        let ghost holders = self.collision_manager@;
        proof {
            assert(self.collision_manager.wf_for(s1));
            assert forall|i: StorageIndex| #[trigger]
                spenders@.contains(i) <==> (live(s1, i as int) && s1[i as int].unwrap().transaction.spends_output_of(
                    id,
                )) by {
                if spenders@.contains(i) {
                    let o = choose|o: u16| #[trigger]
                        holders.contains(
                            (ResourceKey::Input(Input::Coin { tx_id: id, output_index: o }), i),
                        );
                    let key = ResourceKey::Input(Input::Coin { tx_id: id, output_index: o });
                    assert(s1[i as int].unwrap().transaction.has_resource(key));
                }
                if live(s1, i as int) && s1[i as int].unwrap().transaction.spends_output_of(id) {
                    let tx = s1[i as int].unwrap().transaction;
                    let o = choose|o: u16| #[trigger]
                        tx.inputs@.contains(Input::Coin { tx_id: id, output_index: o });
                    let key = ResourceKey::Input(Input::Coin { tx_id: id, output_index: o });
                    assert(tx.has_resource(key));
                    assert(holders.contains((key, i)));
                }
            }
        }
        let ghost spender_slots = spenders@;
        let mut dependents: Vec<PoolTx> = Vec::new();
        self.remove_subtrees(&spenders, &mut dependents);
        proof {
            let s2 = self.storage@;
            lemma_gone_compose(s0, s1, s2);
            assert forall|j: int| live(s2, j) <==> (live(s0, j) && !leaves_with(s0, id, j)) by {
                lemma_skipped_leaves(s0, s1, s2, id, own@, spender_slots, j);
            }
            if holds_id(s2, id) {
                let j = choose|j: int| live(s2, j) && (#[trigger] s2[j]).unwrap().transaction.id == id;
                assert(live(s1, j) && s1[j].unwrap().transaction.id == id);
            }
            assert forall|j: int| live(s2, j) implies !(#[trigger] s2[j]).unwrap().transaction.spends_output_of(
                id,
            ) by {
                let tx = s2[j].unwrap().transaction;
                if tx.spends_output_of(id) {
                    assert(live(s1, j) && s1[j].unwrap().transaction == tx);
                    let o = choose|o: u16| #[trigger]
                        tx.inputs@.contains(Input::Coin { tx_id: id, output_index: o });
                    let key = ResourceKey::Input(Input::Coin { tx_id: id, output_index: o });
                    assert(tx.has_resource(key));
                    assert(holders.contains((key, j as usize)));
                    assert(spenders@.contains(j as usize));
                    let w = choose|w: int| 0 <= w < spenders@.len() && spenders@[w] == j as usize;
                    assert(in_subtree(s1, spenders@[w], j));
                    assert(under_any(s1, spenders@, spenders@.len() as int, j));
                }
            }
        }
        SkippedRemoval {
            removed,
            removed_reason: Error::SkippedTransaction(SkipCause::Skipped(id)),
            dependents,
            dependents_reason: Error::SkippedTransaction(SkipCause::ParentSkipped(id)),
        }
    }
}

} // verus!
