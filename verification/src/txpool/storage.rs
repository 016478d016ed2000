//! The dependency graph of pooled transactions.
//!
//! Entries live in numbered slots. Each entry records every entry it depends
//! on, directly or through others, and carries the summed tip, gas, size and
//! number of the entries that depend on it, itself included.

use vstd::prelude::*;
use crate::txpool::types::{lemma_push_contains, spends_output_of, PoolTx, StorageIndex, TxId};

verus! {

pub struct StorageEntry {
    pub transaction: PoolTx,
    /// Every entry this one depends on, directly or through others.
    pub dependencies: Vec<StorageIndex>,
    pub dependents_cumulative_tip: u128,
    pub dependents_cumulative_gas: u128,
    pub dependents_cumulative_bytes_size: u128,
    pub number_dependents_in_chain: u128,
    /// Seconds since the epoch at which the entry was stored.
    pub creation_instant: u64,
}

/// The slots of a storage, as a sequence.
pub type Slots = Seq<Option<StorageEntry>>;

/// The four measures of a transaction: tip, gas, size, and the count one.
pub open spec fn weight(tx: PoolTx, k: int) -> int {
    if k == 0 {
        tx.tip as int
    } else if k == 1 {
        tx.max_gas as int
    } else if k == 2 {
        tx.metered_bytes_size as int
    } else {
        1
    }
}

/// The four cumulative counters of an entry, in the order of [`weight`].
pub open spec fn counter(e: StorageEntry, k: int) -> int {
    if k == 0 {
        e.dependents_cumulative_tip as int
    } else if k == 1 {
        e.dependents_cumulative_gas as int
    } else if k == 2 {
        e.dependents_cumulative_bytes_size as int
    } else {
        e.number_dependents_in_chain as int
    }
}

pub open spec fn live(s: Slots, j: int) -> bool {
    0 <= j < s.len() && s[j].is_some()
}

/// Whether slot `j` holds `root` itself or an entry that depends on it.
pub open spec fn in_subtree(s: Slots, root: StorageIndex, j: int) -> bool {
    live(s, j) && (j == root || s[j].unwrap().dependencies@.contains(root))
}

/// What slot `j` adds to a sum of measure `k`: over all entries when `all`,
/// else over the closed dependent subtree of `root`.
pub open spec fn term(s: Slots, all: bool, root: StorageIndex, k: int, j: int) -> int {
    if live(s, j) && (all || in_subtree(s, root, j)) {
        weight(s[j].unwrap().transaction, k)
    } else {
        0
    }
}

pub open spec fn sum_upto(s: Slots, all: bool, root: StorageIndex, k: int, n: int) -> int
    decreases n,
{
    if n <= 0 {
        0
    } else {
        sum_upto(s, all, root, k, n - 1) + term(s, all, root, k, n - 1)
    }
}

/// Sum of measure `k` over `root` and every entry that depends on it.
pub open spec fn subtree_sum(s: Slots, root: StorageIndex, k: int) -> int {
    sum_upto(s, false, root, k, s.len() as int)
}

/// Sum of measure `k` over every entry.
pub open spec fn total(s: Slots, k: int) -> int {
    sum_upto(s, true, 0, k, s.len() as int)
}

/// Two sums whose terms agree everywhere but at slot `p` differ by the
/// difference of the terms at `p`.
pub proof fn lemma_sum_diff(
    s1: Slots,
    s2: Slots,
    all: bool,
    r1: StorageIndex,
    r2: StorageIndex,
    k: int,
    p: int,
    n: int,
)
    requires
        0 <= n <= s1.len(),
        n <= s2.len(),
        forall|j: int|
            0 <= j < n && j != p ==> #[trigger] term(s1, all, r1, k, j) == term(s2, all, r2, k, j),
    ensures
        sum_upto(s2, all, r2, k, n) == sum_upto(s1, all, r1, k, n) + (if 0 <= p < n {
            term(s2, all, r2, k, p) - term(s1, all, r1, k, p)
        } else {
            0
        }),
    decreases n,
{
    if n > 0 {
        lemma_sum_diff(s1, s2, all, r1, r2, k, p, n - 1);
    }
}

/// A sum is at least each of its terms and at most `n` times the largest
/// value of a measure.
pub proof fn lemma_sum_bounds(s: Slots, all: bool, root: StorageIndex, k: int, p: int, n: int)
    requires
        0 <= n <= s.len(),
        0 <= k < 4,
    ensures
        0 <= sum_upto(s, all, root, k, n) <= n * 0xffff_ffff_ffff_ffff,
        0 <= p < n ==> term(s, all, root, k, p) <= sum_upto(s, all, root, k, n),
    decreases n,
{
    if n > 0 {
        lemma_sum_bounds(s, all, root, k, p, n - 1);
    }
}

/// A sum without a term is zero.
pub proof fn lemma_sum_zero(s: Slots, all: bool, root: StorageIndex, k: int, n: int)
    requires
        0 <= n <= s.len(),
        forall|j: int| 0 <= j < n ==> #[trigger] term(s, all, root, k, j) == 0,
    ensures
        sum_upto(s, all, root, k, n) == 0,
    decreases n,
{
    if n > 0 {
        lemma_sum_zero(s, all, root, k, n - 1);
    }
}

/// What holds of the entry in slot `i`.
pub open spec fn entry_wf(s: Slots, i: int) -> bool {
    let e = s[i].unwrap();
    &&& e.transaction.max_gas > 0
    &&& counter(e, 0) == subtree_sum(s, i as usize, 0)
    &&& counter(e, 1) == subtree_sum(s, i as usize, 1)
    &&& counter(e, 2) == subtree_sum(s, i as usize, 2)
    &&& counter(e, 3) == subtree_sum(s, i as usize, 3)
    &&& dependencies_closed(s, e.dependencies@)
    &&& !e.dependencies@.contains(i as usize)
}

/// Every member of `deps` is live, and `deps` holds the dependencies of each
/// of its members.
pub open spec fn dependencies_closed(s: Slots, deps: Seq<StorageIndex>) -> bool {
    &&& forall|d: StorageIndex| #[trigger] deps.contains(d) ==> live(s, d as int)
    &&& forall|d: StorageIndex, a: StorageIndex|
        deps.contains(d) && #[trigger] s[d as int].unwrap().dependencies@.contains(a)
            ==> deps.contains(a)
}

/// The invariant of a storage: counters equal the sums they stand for,
/// dependencies are live and transitively closed, identifiers are unique.
pub open spec fn slots_wf(s: Slots) -> bool {
    &&& s.len() <= usize::MAX
    &&& forall|i: int| live(s, i) ==> #[trigger] entry_wf(s, i)
    &&& forall|i: int, j: int|
        live(s, i) && live(s, j) && i != j ==> (#[trigger] s[i]).unwrap().transaction.id != (
        #[trigger] s[j]).unwrap().transaction.id
}

pub open spec fn holds_id(s: Slots, id: TxId) -> bool {
    exists|i: int| live(s, i) && (#[trigger] s[i]).unwrap().transaction.id == id
}

/// Relates a storage to what it is once `tx` with the dependencies `deps` is
/// stored in the free slot `p`: nothing else enters, leaves or moves.
pub open spec fn stored(s0: Slots, s1: Slots, p: int, tx: PoolTx, deps: Seq<StorageIndex>) -> bool {
    &&& 0 <= p <= s0.len()
    &&& !live(s0, p)
    &&& live(s1, p)
    &&& s1.len() == if p < s0.len() { s0.len() } else { s0.len() + 1 }
    &&& s1[p].unwrap().transaction == tx
    &&& s1[p].unwrap().dependencies@ == deps
    &&& forall|j: int| 0 <= j < s1.len() && j != p ==> same_node(s0, #[trigger] s1[j], j)
}

/// Slot `j` of `s0` and the slot value `after` hold the same transaction with
/// the same dependencies, or are both empty.
pub open spec fn same_node(s0: Slots, after: Option<StorageEntry>, j: int) -> bool {
    &&& after.is_some() == live(s0, j)
    &&& after.is_some() ==> {
        &&& after.unwrap().transaction == s0[j].unwrap().transaction
        &&& after.unwrap().dependencies == s0[j].unwrap().dependencies
        &&& after.unwrap().creation_instant == s0[j].unwrap().creation_instant
    }
}

/// Relates a storage to what it is once the entry in slot `p` has left:
/// the other entries stay, and none of them depends on `p` any longer.
pub open spec fn unlinked(s0: Slots, s1: Slots, p: int) -> bool {
    &&& s1.len() == s0.len()
    &&& live(s0, p)
    &&& !live(s1, p)
    &&& forall|j: int| 0 <= j < s1.len() && j != p ==> unlinked_node(s0, #[trigger] s1[j], j, p)
}

pub open spec fn unlinked_node(s0: Slots, after: Option<StorageEntry>, j: int, p: int) -> bool {
    &&& after.is_some() == live(s0, j)
    &&& after.is_some() ==> {
        &&& after.unwrap().transaction == s0[j].unwrap().transaction
        &&& after.unwrap().creation_instant == s0[j].unwrap().creation_instant
        &&& forall|d: StorageIndex|
            #[trigger] after.unwrap().dependencies@.contains(d) <==> (
            s0[j].unwrap().dependencies@.contains(d) && d != p)
    }
}

/// Whether `x` occurs in `v`.
pub fn vec_contains(v: &Vec<StorageIndex>, x: StorageIndex) -> (found: bool)
    ensures
        found == v@.contains(x),
{
    let mut i: usize = 0;
    while i < v.len()
        invariant
            i <= v.len(),
            forall|y: int| 0 <= y < i ==> v@[y] != x,
        decreases v.len() - i,
    {
        if v[i] == x {
            return true;
        }
        i += 1;
    }
    false
}

/// The members of `v` other than `p`, in their order.
pub fn vec_without(v: &Vec<StorageIndex>, p: StorageIndex) -> (rest: Vec<StorageIndex>)
    ensures
        forall|d: StorageIndex| #[trigger] rest@.contains(d) <==> (v@.contains(d) && d != p),
        rest@.len() <= v@.len(),
        v@.no_duplicates() ==> rest@.no_duplicates(),
{
    let mut rest: Vec<StorageIndex> = Vec::new();
    let mut i: usize = 0;
    while i < v.len()
        invariant
            i <= v.len(),
            rest@.len() <= i,
            v@.no_duplicates() ==> rest@.no_duplicates(),
            forall|d: StorageIndex| #[trigger]
                rest@.contains(d) <==> (v@.subrange(0, i as int).contains(d) && d != p),
        decreases v.len() - i,
    {
        let x: usize = v[i];
        let ghost before = rest@;
        proof {
            if v@.no_duplicates() && before.contains(x) {
                let w = choose|w: int| 0 <= w < i && v@.subrange(0, i as int)[w] == x;
                assert(v@[w] == v@[i as int]);
            }
        }
        if x != p {
            rest.push(x);
        }
        proof {
            assert(v@.subrange(0, i + 1) =~= v@.subrange(0, i as int).push(x));
            assert forall|d: StorageIndex| #[trigger]
                rest@.contains(d) <==> (v@.subrange(0, i + 1).contains(d) && d != p) by {
                if x != p {
                    assert(rest@ =~= before.push(x));
                    if before.contains(d) {
                        let w = choose|w: int| 0 <= w < before.len() && before[w] == d;
                        assert(rest@[w] == d);
                    }
                    if d == x {
                        assert(rest@[before.len() as int] == d);
                    }
                }
                let pre = v@.subrange(0, i as int);
                if pre.contains(d) {
                    let w = choose|w: int| 0 <= w < pre.len() && pre[w] == d;
                    assert(pre.push(x)[w] == d);
                }
                if d == x {
                    assert(pre.push(x)[pre.len() as int] == d);
                }
            }
        }
        i += 1;
    }
    proof {
        assert(v@.subrange(0, v@.len() as int) =~= v@);
    }
    rest
}

/// Whether the members of `v` ascend.
pub open spec fn ascending(v: Seq<StorageIndex>) -> bool {
    forall|a: int, b: int| 0 <= a < b < v.len() ==> v[a] < v[b]
}

/// Whether the entry in slot `q` made an output that `tx` spends.
pub open spec fn is_parent(s: Slots, tx: PoolTx, q: int) -> bool {
    live(s, q) && tx.spends_output_of(s[q].unwrap().transaction.id)
}

/// Whether `tx` depends on the entry in slot `d`: the entry is a parent of
/// `tx`, or a parent of `tx` depends on it.
pub open spec fn is_dependency(s: Slots, tx: PoolTx, d: StorageIndex) -> bool {
    exists|q: int| #[trigger]
        is_parent(s, tx, q) && (q == d || s[q].unwrap().dependencies@.contains(d))
}

/// A sum of the count measure is at most the number of slots summed.
pub proof fn lemma_count_bounded(s: Slots, all: bool, root: StorageIndex, n: int)
    requires
        0 <= n <= s.len(),
    ensures
        sum_upto(s, all, root, 3, n) <= n,
    decreases n,
{
    if n > 0 {
        lemma_count_bounded(s, all, root, n - 1);
    }
}

pub struct Storage {
    pub entries: Vec<Option<StorageEntry>>,
}

impl Storage {
    pub open spec fn view(&self) -> Slots {
        self.entries@
    }

    pub open spec fn wf(&self) -> bool {
        slots_wf(self@)
    }

    pub fn new() -> (storage: Storage)
        ensures
            storage@.len() == 0,
            storage.wf(),
    {
        Storage { entries: Vec::new() }
    }

    /// The entry in slot `index`, if the slot holds one.
    pub fn get(&self, index: StorageIndex) -> (entry: Option<&StorageEntry>)
        ensures
            entry.is_some() == live(self@, index as int),
            entry.is_some() ==> *entry.unwrap() == self@[index as int].unwrap(),
    {
        if index < self.entries.len() {
            self.entries[index].as_ref()
        } else {
            None
        }
    }

    /// Whether the entry in slot `index` waits for another entry. An empty
    /// slot waits for nothing.
    pub fn has_dependencies(&self, index: StorageIndex) -> (has: bool)
        ensures
            has == (live(self@, index as int) && self@[index as int].unwrap().dependencies@.len()
                > 0),
    {
        match self.get(index) {
            Some(entry) => entry.dependencies.len() > 0,
            None => false,
        }
    }

    /// Whether `tx` with the dependencies `deps` may be stored: its gas is
    /// positive, its identifier is new, and `deps` is live and closed.
    pub open spec fn accepts(s: Slots, tx: PoolTx, deps: Seq<StorageIndex>) -> bool {
        &&& tx.max_gas > 0
        &&& !holds_id(s, tx.id)
        &&& dependencies_closed(s, deps)
    }

    /// Stores `tx` in the first free slot, or in a new one where none is
    /// free, and adds its tip, gas, size and count to the counters of every
    /// entry it depends on.
    pub fn store_transaction(
        &mut self,
        tx: PoolTx,
        deps: Vec<StorageIndex>,
        creation_instant: u64,
    ) -> (index: StorageIndex)
        requires
            old(self).wf(),
            Self::accepts(old(self)@, tx, deps@),
        ensures
            final(self).wf(),
            stored(old(self)@, final(self)@, index as int, tx, deps@),
            final(self)@[index as int].unwrap().creation_instant == creation_instant,
            forall|j: int| 0 <= j < index ==> live(old(self)@, j),
    {
        let ghost s0 = self@;
        let n: usize = self.entries.len();
        let mut p: usize = 0;
        while p < n && self.entries[p].is_some()
            invariant
                p <= n,
                n == self.entries@.len(),
                self@ == s0,
                forall|j: int| 0 <= j < p ==> live(s0, j),
            decreases n - p,
        {
            p += 1;
        }
        if p == n {
            self.entries.push(None);
        }
        let ghost sa = self@;
        let len: usize = self.entries.len();
        proof {
            assert forall|i: usize, k: int| live(s0, i as int) && 0 <= k < 4 implies #[trigger] subtree_sum(
                sa,
                i,
                k,
            ) == subtree_sum(s0, i, k) by {
                lemma_sum_diff(s0, sa, false, i, i, k, -1, s0.len() as int);
            }
        }
        let mut j: usize = 0;
        while j < len
            invariant
                j <= len,
                len == self.entries@.len(),
                len == sa.len(),
                len <= usize::MAX,
                p < len,
                !live(sa, p as int),
                slots_wf(s0),
                sa.len() >= s0.len(),
                forall|i: int| 0 <= i < s0.len() ==> sa[i] == s0[i],
                forall|i: usize, k: int|
                    live(s0, i as int) && 0 <= k < 4 ==> #[trigger] subtree_sum(sa, i, k)
                        == subtree_sum(s0, i, k),
                forall|d: StorageIndex| #[trigger] deps@.contains(d) ==> live(s0, d as int),
                forall|x: int| j <= x < len ==> self@[x] == sa[x],
                forall|x: int|
                    0 <= x < j ==> same_node(sa, #[trigger] self@[x], x) && (live(sa, x) ==> forall|
                        k: int,
                    |
                        0 <= k < 4 ==> #[trigger] counter(self@[x].unwrap(), k) == counter(
                            sa[x].unwrap(),
                            k,
                        ) + (if deps@.contains(x as usize) {
                            weight(tx, k)
                        } else {
                            0
                        })),
            decreases len - j,
        {
            let bump: bool = self.entries[j].is_some() && vec_contains(&deps, j);
            if bump {
                let mut e = self.entries[j].take().unwrap();
                proof {
                    assert(e == sa[j as int].unwrap());
                    assert(live(s0, j as int));
                    assert(entry_wf(s0, j as int));
                    lemma_sum_bounds(sa, false, j, 0, 0, sa.len() as int);
                    lemma_sum_bounds(sa, false, j, 1, 0, sa.len() as int);
                    lemma_sum_bounds(sa, false, j, 2, 0, sa.len() as int);
                    lemma_sum_bounds(sa, false, j, 3, 0, sa.len() as int);
                    assert(counter(e, 0) == subtree_sum(sa, j, 0));
                    assert(counter(e, 1) == subtree_sum(sa, j, 1));
                    assert(counter(e, 2) == subtree_sum(sa, j, 2));
                    assert(counter(e, 3) == subtree_sum(sa, j, 3));
                    assert(sa.len() * 0xffff_ffff_ffff_ffff + 0xffff_ffff_ffff_ffff
                        <= 0xffff_ffff_ffff_ffff_ffff_ffff_ffff_ffff) by (nonlinear_arith)
                        requires
                            sa.len() <= 0xffff_ffff_ffff_ffff,
                    ;
                }
                e.dependents_cumulative_tip = e.dependents_cumulative_tip + tx.tip as u128;
                e.dependents_cumulative_gas = e.dependents_cumulative_gas + tx.max_gas as u128;
                e.dependents_cumulative_bytes_size = e.dependents_cumulative_bytes_size
                    + tx.metered_bytes_size as u128;
                e.number_dependents_in_chain = e.number_dependents_in_chain + 1;
                self.entries.set(j, Some(e));
            }
            j += 1;
        }
        let entry = StorageEntry {
            dependents_cumulative_tip: tx.tip as u128,
            dependents_cumulative_gas: tx.max_gas as u128,
            dependents_cumulative_bytes_size: tx.metered_bytes_size as u128,
            number_dependents_in_chain: 1,
            transaction: tx,
            dependencies: deps,
            creation_instant,
        };
        let ghost mid = self@;
        self.entries.set(p, Some(entry));
        proof {
            let t = self@;
            assert forall|i: int| 0 <= i < t.len() && i != p implies same_node(
                sa,
                #[trigger] t[i],
                i,
            ) && (live(sa, i) ==> forall|k: int|
                0 <= k < 4 ==> #[trigger] counter(t[i].unwrap(), k) == counter(sa[i].unwrap(), k)
                    + (if t[p as int].unwrap().dependencies@.contains(i as usize) {
                    weight(t[p as int].unwrap().transaction, k)
                } else {
                    0
                })) by {
                assert(t[i] == mid[i]);
                assert(same_node(sa, mid[i], i));
            }
            assert forall|i: int| 0 <= i < t.len() && i != p implies same_node(
                s0,
                #[trigger] t[i],
                i,
            ) by {
                assert(same_node(sa, t[i], i));
            }
            assert forall|i: int| live(t, i) implies #[trigger] entry_wf(t, i) by {
                Self::lemma_store_entry(s0, sa, t, p as int, i);
            }
            assert forall|i: int, j: int| live(t, i) && live(t, j) && i != j implies (
            #[trigger] t[i]).unwrap().transaction.id != (#[trigger] t[j]).unwrap().transaction.id by {
                if i != p && j != p {
                    assert(same_node(s0, t[i], i));
                    assert(same_node(s0, t[j], j));
                } else if i == p {
                    assert(same_node(s0, t[j], j));
                    assert(live(s0, j));
                } else {
                    assert(same_node(s0, t[i], i));
                    assert(live(s0, i));
                }
            }
        }
        p
    }

    /// After a store into slot `p`, as the loop of `store_transaction` leaves
    /// the slots, the entry in slot `i` meets its invariant.
    proof fn lemma_store_entry(s0: Slots, sa: Slots, t: Slots, p: int, i: int)
        requires
            slots_wf(s0),
            0 <= p < sa.len(),
            sa.len() == t.len(),
            t.len() <= usize::MAX,
            sa.len() >= s0.len(),
            !live(sa, p),
            !live(s0, p),
            forall|x: int| 0 <= x < s0.len() ==> sa[x] == s0[x],
            forall|x: int| s0.len() <= x < sa.len() ==> sa[x].is_none(),
            forall|x: usize, k: int|
                live(s0, x as int) && 0 <= k < 4 ==> #[trigger] subtree_sum(sa, x, k)
                    == subtree_sum(s0, x, k),
            live(t, p),
            t[p].unwrap().transaction.max_gas > 0,
            dependencies_closed(s0, t[p].unwrap().dependencies@),
            forall|k: int| 0 <= k < 4 ==> #[trigger] counter(t[p].unwrap(), k) == weight(t[p].unwrap().transaction, k),
            forall|x: int|
                0 <= x < t.len() && x != p ==> same_node(sa, #[trigger] t[x], x) && (live(sa, x)
                    ==> forall|k: int|
                    0 <= k < 4 ==> #[trigger] counter(t[x].unwrap(), k) == counter(
                        sa[x].unwrap(),
                        k,
                    ) + (if t[p].unwrap().dependencies@.contains(x as usize) {
                        weight(t[p].unwrap().transaction, k)
                    } else {
                        0
                    })),
            live(t, i),
        ensures
            entry_wf(t, i),
    {
        let deps = t[p].unwrap().dependencies@;
        let n = t.len() as int;
        assert forall|x: int| 0 <= x < n && x != p implies !(#[trigger] in_subtree(t, p as usize, x)) by {
            assert(same_node(sa, t[x], x));
            if live(t, x) {
                assert(live(s0, x));
                assert(entry_wf(s0, x));
            }
        }
        if i == p {
            assert forall|k: int| 0 <= k < 4 implies subtree_sum(t, p as usize, k) == weight(
                t[p].unwrap().transaction,
                k,
            ) by {
                assert forall|x: int| 0 <= x < n implies #[trigger] term(
                    sa,
                    false,
                    p as usize,
                    k,
                    x,
                ) == 0 by {
                    if live(sa, x) {
                        assert(live(s0, x));
                        assert(entry_wf(s0, x));
                    }
                }
                lemma_sum_zero(sa, false, p as usize, k, n);
                assert forall|x: int| 0 <= x < n && x != p implies #[trigger] term(
                    sa,
                    false,
                    p as usize,
                    k,
                    x,
                ) == term(t, false, p as usize, k, x) by {
                    assert(!in_subtree(t, p as usize, x));
                }
                lemma_sum_diff(sa, t, false, p as usize, p as usize, k, p, n);
            }
            assert(counter(t[p].unwrap(), 0) == weight(t[p].unwrap().transaction, 0));
            assert(counter(t[p].unwrap(), 1) == weight(t[p].unwrap().transaction, 1));
            assert(counter(t[p].unwrap(), 2) == weight(t[p].unwrap().transaction, 2));
            assert(counter(t[p].unwrap(), 3) == weight(t[p].unwrap().transaction, 3));
            assert forall|d: StorageIndex| #[trigger] deps.contains(d) implies live(t, d as int) by {
                assert(live(s0, d as int));
                assert(same_node(sa, t[d as int], d as int));
            }
            assert forall|d: StorageIndex, a: StorageIndex|
                deps.contains(d) && #[trigger] t[d as int].unwrap().dependencies@.contains(
                    a,
                ) implies deps.contains(a) by {
                assert(live(s0, d as int));
                assert(same_node(sa, t[d as int], d as int));
            }
            if deps.contains(p as usize) {
                assert(live(s0, p));
            }
        } else {
            assert(same_node(sa, t[i], i));
            assert(live(s0, i));
            assert(entry_wf(s0, i));
            let e = t[i].unwrap();
            assert forall|k: int| 0 <= k < 4 implies subtree_sum(t, i as usize, k) == counter(
                e,
                k,
            ) by {
                assert forall|x: int| 0 <= x < n && x != p implies #[trigger] term(
                    sa,
                    false,
                    i as usize,
                    k,
                    x,
                ) == term(t, false, i as usize, k, x) by {
                    assert(same_node(sa, t[x], x));
                }
                lemma_sum_diff(sa, t, false, i as usize, i as usize, k, p, n);
                assert(term(sa, false, i as usize, k, p) == 0);
                assert(counter(e, k) == counter(sa[i].unwrap(), k) + (if deps.contains(i as usize) {
                    weight(t[p].unwrap().transaction, k)
                } else {
                    0
                }));
                assert(subtree_sum(sa, i as usize, k) == subtree_sum(s0, i as usize, k));
                assert(counter(s0[i].unwrap(), k) == subtree_sum(s0, i as usize, k));
            }
            assert(counter(e, 0) == subtree_sum(t, i as usize, 0));
            assert(counter(e, 1) == subtree_sum(t, i as usize, 1));
            assert(counter(e, 2) == subtree_sum(t, i as usize, 2));
            assert(counter(e, 3) == subtree_sum(t, i as usize, 3));
            let di = e.dependencies@;
            assert(di == s0[i].unwrap().dependencies@);
            assert forall|d: StorageIndex| #[trigger] di.contains(d) implies live(t, d as int) by {
                assert(live(s0, d as int));
                assert(same_node(sa, t[d as int], d as int));
            }
            assert forall|d: StorageIndex, a: StorageIndex|
                di.contains(d) && #[trigger] t[d as int].unwrap().dependencies@.contains(
                    a,
                ) implies di.contains(a) by {
                assert(live(s0, d as int));
                assert(same_node(sa, t[d as int], d as int));
            }
        }
    }

    /// Takes the entry out of slot `index` alone. The entries that depended
    /// on it stay and no longer depend on it; the counters of the entries it
    /// depended on lose its tip, gas, size and count.
    pub fn remove_transaction(&mut self, index: StorageIndex) -> (removed: Option<StorageEntry>)
        requires
            old(self).wf(),
        ensures
            removed.is_some() == live(old(self)@, index as int),
            removed.is_none() ==> final(self)@ == old(self)@,
            removed.is_some() ==> removed.unwrap() == old(self)@[index as int].unwrap(),
            removed.is_some() ==> unlinked(old(self)@, final(self)@, index as int),
            final(self).wf(),
    {
        let ghost s0 = self@;
        let len: usize = self.entries.len();
        if index >= len || self.entries[index].is_none() {
            return None;
        }
        let gone = self.entries[index].take().unwrap();
        let ghost sa = self@;
        let mut j: usize = 0;
        while j < len
            invariant
                j <= len,
                len == self.entries@.len(),
                len == s0.len(),
                index < len,
                slots_wf(s0),
                live(s0, index as int),
                gone == s0[index as int].unwrap(),
                self@[index as int].is_none(),
                forall|x: int| j <= x < len && x != index ==> self@[x] == s0[x],
                forall|x: int|
                    0 <= x < j && x != index ==> unlinked_node(s0, #[trigger] self@[x], x, index as int)
                        && (live(s0, x) ==> forall|k: int|
                        0 <= k < 4 ==> #[trigger] counter(self@[x].unwrap(), k) == counter(
                            s0[x].unwrap(),
                            k,
                        ) - (if gone.dependencies@.contains(x as usize) {
                            weight(gone.transaction, k)
                        } else {
                            0
                        })),
            decreases len - j,
        {
            if j != index && self.entries[j].is_some() {
                let mut e = self.entries[j].take().unwrap();
                proof {
                    assert(e == s0[j as int].unwrap());
                    assert(entry_wf(s0, j as int));
                }
                if vec_contains(&gone.dependencies, j) {
                    proof {
                        lemma_sum_bounds(s0, false, j, 0, index as int, s0.len() as int);
                        lemma_sum_bounds(s0, false, j, 1, index as int, s0.len() as int);
                        lemma_sum_bounds(s0, false, j, 2, index as int, s0.len() as int);
                        lemma_sum_bounds(s0, false, j, 3, index as int, s0.len() as int);
                        assert(in_subtree(s0, j, index as int));
                    }
                    e.dependents_cumulative_tip = e.dependents_cumulative_tip
                        - gone.transaction.tip as u128;
                    e.dependents_cumulative_gas = e.dependents_cumulative_gas
                        - gone.transaction.max_gas as u128;
                    e.dependents_cumulative_bytes_size = e.dependents_cumulative_bytes_size
                        - gone.transaction.metered_bytes_size as u128;
                    e.number_dependents_in_chain = e.number_dependents_in_chain - 1;
                }
                if vec_contains(&e.dependencies, index) {
                    e.dependencies = vec_without(&e.dependencies, index);
                }
                self.entries.set(j, Some(e));
            }
            j += 1;
        }
        proof {
            let t = self@;
            assert forall|i: int| live(t, i) implies #[trigger] entry_wf(t, i) by {
                Self::lemma_remove_entry(s0, t, index as int, i);
            }
            assert forall|i: int, j: int| live(t, i) && live(t, j) && i != j implies (
            #[trigger] t[i]).unwrap().transaction.id != (#[trigger] t[j]).unwrap().transaction.id by {
                assert(unlinked_node(s0, t[i], i, index as int));
                assert(unlinked_node(s0, t[j], j, index as int));
            }
        }
        Some(gone)
    }

    /// After the entry in slot `p` has left, as the loop of
    /// `remove_transaction` leaves the slots, the entry in slot `i` meets its
    /// invariant.
    proof fn lemma_remove_entry(s0: Slots, t: Slots, p: int, i: int)
        requires
            slots_wf(s0),
            live(s0, p),
            s0.len() == t.len(),
            t.len() <= usize::MAX,
            !live(t, p),
            forall|x: int|
                0 <= x < t.len() && x != p ==> unlinked_node(s0, #[trigger] t[x], x, p) && (live(
                    s0,
                    x,
                ) ==> forall|k: int|
                    0 <= k < 4 ==> #[trigger] counter(t[x].unwrap(), k) == counter(
                        s0[x].unwrap(),
                        k,
                    ) - (if s0[p].unwrap().dependencies@.contains(x as usize) {
                        weight(s0[p].unwrap().transaction, k)
                    } else {
                        0
                    })),
            live(t, i),
        ensures
            entry_wf(t, i),
    {
        let gone = s0[p].unwrap();
        let n = t.len() as int;
        let e = t[i].unwrap();
        assert(unlinked_node(s0, t[i], i, p));
        assert(live(s0, i));
        assert(entry_wf(s0, i));
        assert(entry_wf(s0, p));
        assert forall|k: int| 0 <= k < 4 implies subtree_sum(t, i as usize, k) == counter(e, k) by {
            assert forall|x: int| 0 <= x < n && x != p implies #[trigger] term(
                s0,
                false,
                i as usize,
                k,
                x,
            ) == term(t, false, i as usize, k, x) by {
                assert(unlinked_node(s0, t[x], x, p));
            }
            lemma_sum_diff(s0, t, false, i as usize, i as usize, k, p, n);
            assert(term(t, false, i as usize, k, p) == 0);
            assert(counter(e, k) == counter(s0[i].unwrap(), k) - (if gone.dependencies@.contains(
                i as usize,
            ) {
                weight(gone.transaction, k)
            } else {
                0
            }));
        }
        assert(counter(e, 0) == subtree_sum(t, i as usize, 0));
        assert(counter(e, 1) == subtree_sum(t, i as usize, 1));
        assert(counter(e, 2) == subtree_sum(t, i as usize, 2));
        assert(counter(e, 3) == subtree_sum(t, i as usize, 3));
        let di = e.dependencies@;
        let d0 = s0[i].unwrap().dependencies@;
        assert forall|d: StorageIndex| #[trigger] di.contains(d) implies live(t, d as int) by {
            assert(d0.contains(d) && d != p);
            assert(live(s0, d as int));
            assert(unlinked_node(s0, t[d as int], d as int, p));
        }
        assert forall|d: StorageIndex, a: StorageIndex|
            di.contains(d) && #[trigger] t[d as int].unwrap().dependencies@.contains(
                a,
            ) implies di.contains(a) by {
            assert(d0.contains(d) && d != p);
            assert(live(s0, d as int));
            assert(unlinked_node(s0, t[d as int], d as int, p));
            assert(s0[d as int].unwrap().dependencies@.contains(a) && a != p);
            assert(d0.contains(a));
        }
        if di.contains(i as usize) {
            assert(d0.contains(i as usize));
        }
    }

    /// The slots of the entries that made an output that `tx` spends, in
    /// ascending order.
    pub fn direct_parents(&self, tx: &PoolTx) -> (parents: Vec<StorageIndex>)
        ensures
            forall|q: StorageIndex| #[trigger] parents@.contains(q) <==> is_parent(self@, *tx, q as int),
            ascending(parents@),
    {
        let mut parents: Vec<StorageIndex> = Vec::new();
        let mut i: usize = 0;
        while i < self.entries.len()
            invariant
                i <= self.entries.len(),
                ascending(parents@),
                forall|x: int| 0 <= x < parents@.len() ==> parents@[x] < i,
                forall|q: StorageIndex| #[trigger]
                    parents@.contains(q) <==> (q < i && is_parent(self@, *tx, q as int)),
            decreases self.entries.len() - i,
        {
            let hit: bool = match &self.entries[i] {
                Some(entry) => spends_output_of(tx, entry.transaction.id),
                None => false,
            };
            if hit {
                proof {
                    lemma_push_contains(parents@, i);
                }
                parents.push(i);
            }
            i += 1;
        }
        parents
    }

    /// Whether slot `d` is one of `parents` or a dependency of one of them.
    fn reached_from(&self, parents: &Vec<StorageIndex>, d: StorageIndex) -> (reached: bool)
        requires
            forall|q: StorageIndex| #[trigger] parents@.contains(q) ==> live(self@, q as int),
        ensures
            reached == (exists|x: int|
                0 <= x < parents@.len() && (#[trigger] parents@[x] == d || self@[parents@[x] as int].unwrap().dependencies@.contains(
                    d,
                ))),
    {
        let mut x: usize = 0;
        while x < parents.len()
            invariant
                x <= parents.len(),
                forall|q: StorageIndex| #[trigger] parents@.contains(q) ==> live(self@, q as int),
                forall|y: int|
                    0 <= y < x ==> !(#[trigger] parents@[y] == d || self@[parents@[y] as int].unwrap().dependencies@.contains(
                        d,
                    )),
            decreases parents.len() - x,
        {
            let q: usize = parents[x];
            proof {
                assert(parents@.contains(q));
            }
            let hit: bool = q == d || match &self.entries[q] {
                Some(entry) => vec_contains(&entry.dependencies, d),
                None => false,
            };
            if hit {
                return true;
            }
            x += 1;
        }
        false
    }

    /// Every entry that `tx` depends on, directly or through others, in
    /// ascending order of their slots.
    pub fn can_store_transaction(&self, tx: &PoolTx) -> (deps: Vec<StorageIndex>)
        requires
            self.wf(),
        ensures
            forall|d: StorageIndex| #[trigger] deps@.contains(d) <==> is_dependency(self@, *tx, d),
            dependencies_closed(self@, deps@),
            ascending(deps@),
    {
        let parents = self.direct_parents(tx);
        let mut deps: Vec<StorageIndex> = Vec::new();
        let mut d: usize = 0;
        while d < self.entries.len()
            invariant
                d <= self.entries.len(),
                self.wf(),
                forall|q: StorageIndex| #[trigger]
                    parents@.contains(q) <==> is_parent(self@, *tx, q as int),
                forall|a: StorageIndex| #[trigger]
                    deps@.contains(a) <==> (a < d && is_dependency(self@, *tx, a)),
                ascending(deps@),
                forall|x: int| 0 <= x < deps@.len() ==> deps@[x] < d,
            decreases self.entries.len() - d,
        {
            let reached = self.reached_from(&parents, d);
            proof {
                if reached {
                    let x = choose|x: int|
                        0 <= x < parents@.len() && (#[trigger] parents@[x] == d || self@[parents@[x] as int].unwrap().dependencies@.contains(
                            d,
                        ));
                    assert(parents@.contains(parents@[x]));
                    assert(is_parent(self@, *tx, parents@[x] as int));
                }
                if is_dependency(self@, *tx, d) {
                    let q = choose|q: int| #[trigger]
                        is_parent(self@, *tx, q) && (q == d || self@[q].unwrap().dependencies@.contains(
                            d,
                        ));
                    assert(parents@.contains(q as usize));
                    let x = choose|x: int| 0 <= x < parents@.len() && parents@[x] == q as usize;
                    assert(parents@[x] == d || self@[parents@[x] as int].unwrap().dependencies@.contains(
                        d,
                    ));
                }
            }
            if reached {
                proof {
                    lemma_push_contains(deps@, d);
                }
                deps.push(d);
            }
            d += 1;
        }
        proof {
            let s = self@;
            assert forall|a: StorageIndex| #[trigger] deps@.contains(a) implies live(s, a as int) by {
                let q = choose|q: int| #[trigger]
                    is_parent(s, *tx, q) && (q == a || s[q].unwrap().dependencies@.contains(a));
                assert(entry_wf(s, q));
            }
            assert forall|a: StorageIndex, b: StorageIndex|
                deps@.contains(a) && #[trigger] s[a as int].unwrap().dependencies@.contains(
                    b,
                ) implies deps@.contains(b) by {
                let q = choose|q: int| #[trigger]
                    is_parent(s, *tx, q) && (q == a || s[q].unwrap().dependencies@.contains(a));
                assert(entry_wf(s, q));
                assert(s[q].unwrap().dependencies@.contains(b));
                assert(entry_wf(s, b as int));
                assert(is_dependency(s, *tx, b));
            }
        }
        deps
    }

    /// The slots of `index` and of every entry that depends on it, in
    /// ascending order.
    pub fn subtree(&self, index: StorageIndex) -> (members: Vec<StorageIndex>)
        ensures
            forall|j: StorageIndex| #[trigger]
                members@.contains(j) <==> in_subtree(self@, index, j as int),
            members@.no_duplicates(),
            ascending(members@),
            forall|x: int| 0 <= x < members@.len() ==> live(self@, #[trigger] members@[x] as int),
    {
        let mut members: Vec<StorageIndex> = Vec::new();
        let mut i: usize = 0;
        while i < self.entries.len()
            invariant
                i <= self.entries.len(),
                forall|j: StorageIndex| #[trigger]
                    members@.contains(j) <==> (j < i && in_subtree(self@, index, j as int)),
                members@.no_duplicates(),
                ascending(members@),
                forall|x: int| 0 <= x < members@.len() ==> #[trigger] members@[x] < i && live(self@, members@[x] as int),
            decreases self.entries.len() - i,
        {
            let hit: bool = match &self.entries[i] {
                Some(entry) => i == index || vec_contains(&entry.dependencies, index),
                None => false,
            };
            if hit {
                proof {
                    lemma_push_contains(members@, i);
                }
                members.push(i);
            }
            i += 1;
        }
        members
    }

    /// The slots of the entries that spend an output of the entry in slot
    /// `index`, in ascending order.
    pub fn get_direct_dependents(&self, index: StorageIndex) -> (dependents: Vec<StorageIndex>)
        ensures
            forall|j: StorageIndex| #[trigger]
                dependents@.contains(j) <==> (live(self@, index as int) && is_parent(
                    self@,
                    self@[j as int].unwrap().transaction,
                    index as int,
                ) && live(self@, j as int)),
            ascending(dependents@),
    {
        let mut dependents: Vec<StorageIndex> = Vec::new();
        let parent: TxId = match self.get(index) {
            Some(entry) => entry.transaction.id,
            None => {
                return dependents;
            },
        };
        let mut j: usize = 0;
        while j < self.entries.len()
            invariant
                j <= self.entries.len(),
                live(self@, index as int),
                parent == self@[index as int].unwrap().transaction.id,
                ascending(dependents@),
                forall|x: int| 0 <= x < dependents@.len() ==> dependents@[x] < j,
                forall|x: StorageIndex| #[trigger]
                    dependents@.contains(x) <==> (x < j && live(self@, x as int) && self@[x as int].unwrap().transaction.spends_output_of(
                        parent,
                    )),
            decreases self.entries.len() - j,
        {
            let hit: bool = match &self.entries[j] {
                Some(entry) => spends_output_of(&entry.transaction, parent),
                None => false,
            };
            if hit {
                proof {
                    lemma_push_contains(dependents@, j);
                }
                dependents.push(j);
            }
            j += 1;
        }
        dependents
    }

    /// The slot that holds the transaction `id`.
    pub fn find(&self, id: TxId) -> (found: Option<StorageIndex>)
        ensures
            found.is_some() == holds_id(self@, id),
            found.is_some() ==> live(self@, found.unwrap() as int) && self@[found.unwrap() as int].unwrap().transaction.id
                == id,
    {
        let mut i: usize = 0;
        while i < self.entries.len()
            invariant
                i <= self.entries.len(),
                forall|j: int| 0 <= j < i && live(self@, j) ==> (#[trigger] self@[j]).unwrap().transaction.id != id,
            decreases self.entries.len() - i,
        {
            let hit: bool = match &self.entries[i] {
                Some(entry) => entry.transaction.id == id,
                None => false,
            };
            if hit {
                return Some(i);
            }
            i += 1;
        }
        None
    }
}

/// The identifiers of the entries in the first `n` slots.
pub open spec fn ids_upto(s: Slots, n: int) -> Set<TxId> {
    Set::new(|id: TxId| exists|j: int| 0 <= j < n && live(s, j) && (#[trigger] s[j]).unwrap().transaction.id == id)
}

/// The map from the identifier of each stored transaction to its slot.
pub open spec fn tx_id_to_storage_id(s: Slots) -> Map<TxId, StorageIndex> {
    Map::new(
        |id: TxId| holds_id(s, id),
        |id: TxId|
            (choose|j: int| live(s, j) && (#[trigger] s[j]).unwrap().transaction.id == id) as usize,
    )
}

/// As identifiers are unique, there are as many of them in the first `n`
/// slots as there are entries.
pub proof fn lemma_ids_counted(s: Slots, n: int)
    requires
        slots_wf(s),
        0 <= n <= s.len(),
    ensures
        ids_upto(s, n).finite(),
        ids_upto(s, n).len() == sum_upto(s, true, 0, 3, n),
    decreases n,
{
    if n == 0 {
        assert(ids_upto(s, 0) =~= Set::<TxId>::empty());
    } else {
        lemma_ids_counted(s, n - 1);
        if live(s, n - 1) {
            let id = s[n - 1].unwrap().transaction.id;
            assert(ids_upto(s, n) =~= ids_upto(s, n - 1).insert(id));
            assert(!ids_upto(s, n - 1).contains(id));
        } else {
            assert(ids_upto(s, n) =~= ids_upto(s, n - 1));
        }
    }
}

/// The map from identifiers to slots has one entry for each stored
/// transaction: its size is the count of the entries.
pub proof fn lemma_id_map_size(s: Slots)
    requires
        slots_wf(s),
    ensures
        tx_id_to_storage_id(s).dom().finite(),
        tx_id_to_storage_id(s).dom().len() == total(s, 3),
        forall|id: TxId| #[trigger]
            tx_id_to_storage_id(s).dom().contains(id) ==> live(
                s,
                tx_id_to_storage_id(s)[id] as int,
            ) && s[tx_id_to_storage_id(s)[id] as int].unwrap().transaction.id == id,
{
    lemma_ids_counted(s, s.len() as int);
    assert(tx_id_to_storage_id(s).dom() =~= ids_upto(s, s.len() as int));
}

/// The map from identifiers to slots names, for the identifier of an entry,
/// the slot of that entry.
pub proof fn lemma_slot_of(s: Slots, j: int)
    requires
        slots_wf(s),
        live(s, j),
    ensures
        tx_id_to_storage_id(s).dom().contains(s[j].unwrap().transaction.id),
        tx_id_to_storage_id(s)[s[j].unwrap().transaction.id] == j,
{
    let id = s[j].unwrap().transaction.id;
    assert(holds_id(s, id));
    let c = choose|c: int| live(s, c) && (#[trigger] s[c]).unwrap().transaction.id == id;
    assert(c == j);
}

} // verus!
