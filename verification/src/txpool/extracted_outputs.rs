//! Outputs of transactions that have left the pool for a block.
//!
//! A transaction that spends such an output is accepted before the block
//! that holds its parent is committed.

use vstd::prelude::*;
use crate::txpool::types::{lemma_push_contains, PoolTx, TxId};

verus! {

pub struct ExtractedOutputs {
    /// Each extracted transaction with the number of its outputs.
    pub outputs: Vec<(TxId, usize)>,
}

impl ExtractedOutputs {
    /// Whether output `index` of the transaction `id` is remembered.
    pub open spec fn spec_contains(&self, id: TxId, index: u16) -> bool {
        exists|n: usize| #[trigger] self.outputs@.contains((id, n)) && index < n
    }

    /// Whether anything of the transaction `id` is remembered.
    pub open spec fn knows(&self, id: TxId) -> bool {
        exists|n: usize| #[trigger] self.outputs@.contains((id, n))
    }

    pub fn new() -> (outputs: ExtractedOutputs)
        ensures
            outputs.outputs@.len() == 0,
    {
        ExtractedOutputs { outputs: Vec::new() }
    }

    /// Remembers every output of `tx`.
    pub fn new_extracted_transaction(&mut self, tx: &PoolTx)
        ensures
            final(self).outputs@ == old(self).outputs@.push((tx.id, tx.outputs@.len() as usize)),
            forall|id: TxId, index: u16|
                final(self).spec_contains(id, index) <==> (old(self).spec_contains(id, index) || (
                id == tx.id && index < tx.outputs@.len())),
    {
        let pair: (TxId, usize) = (tx.id, tx.outputs.len());
        let ghost before = self.outputs@;
        proof {
            lemma_push_contains(before, pair);
        }
        self.outputs.push(pair);
        proof {
            assert forall|id: TxId, index: u16|
                self.spec_contains(id, index) <==> (old(self).spec_contains(id, index) || (id
                    == tx.id && index < tx.outputs@.len())) by {
                if self.spec_contains(id, index) {
                    let n = choose|n: usize| #[trigger] self.outputs@.contains((id, n)) && index < n;
                    if (id, n) != pair {
                        assert(before.contains((id, n)));
                    }
                }
                if old(self).spec_contains(id, index) {
                    let n = choose|n: usize| #[trigger] before.contains((id, n)) && index < n;
                    assert(self.outputs@.contains((id, n)));
                }
                if id == tx.id && index < tx.outputs@.len() {
                    assert(self.outputs@.contains((id, pair.1)));
                }
            }
        }
    }

    /// Forgets every output of the transaction `id`.
    pub fn new_skipped_transaction(&mut self, id: TxId)
        ensures
            forall|other: TxId, n: usize| #[trigger]
                final(self).outputs@.contains((other, n)) <==> (old(self).outputs@.contains(
                    (other, n),
                ) && other != id),
            !final(self).knows(id),
    {
        let mut kept: Vec<(TxId, usize)> = Vec::new();
        let mut x: usize = 0;
        while x < self.outputs.len()
            invariant
                x <= self.outputs.len(),
                forall|other: TxId, n: usize| #[trigger]
                    kept@.contains((other, n)) <==> (self.outputs@.subrange(0, x as int).contains(
                        (other, n),
                    ) && other != id),
            decreases self.outputs.len() - x,
        {
            let pair: (TxId, usize) = self.outputs[x];
            proof {
                assert(self.outputs@.subrange(0, x + 1) =~= self.outputs@.subrange(
                    0,
                    x as int,
                ).push(pair));
                lemma_push_contains(self.outputs@.subrange(0, x as int), pair);
            }
            if pair.0 != id {
                proof {
                    lemma_push_contains(kept@, pair);
                }
                kept.push(pair);
            }
            x += 1;
        }
        proof {
            assert(self.outputs@.subrange(0, self.outputs@.len() as int) =~= self.outputs@);
        }
        self.outputs = kept;
    }

    /// Forgets everything.
    pub fn clear(&mut self)
        ensures
            final(self).outputs@.len() == 0,
    {
        self.outputs.clear();
    }

    /// Whether output `index` of the transaction `id` is remembered.
    pub fn contains(&self, id: TxId, index: u16) -> (found: bool)
        ensures
            found == self.spec_contains(id, index),
    {
        let mut x: usize = 0;
        while x < self.outputs.len()
            invariant
                x <= self.outputs.len(),
                forall|y: int|
                    0 <= y < x ==> !((#[trigger] self.outputs@[y]).0 == id && index
                        < self.outputs@[y].1),
            decreases self.outputs.len() - x,
        {
            let pair: (TxId, usize) = self.outputs[x];
            if pair.0 == id && (index as usize) < pair.1 {
                proof {
                    assert(self.outputs@[x as int] == (id, pair.1));
                    assert(self.outputs@.contains((id, pair.1)));
                }
                return true;
            }
            x += 1;
        }
        proof {
            if self.spec_contains(id, index) {
                let n = choose|n: usize| #[trigger] self.outputs@.contains((id, n)) && index < n;
                let y = choose|y: int| 0 <= y < self.outputs@.len() && self.outputs@[y] == (id, n);
                assert(self.outputs@[y].0 == id);
            }
        }
        false
    }
}

} // verus!
