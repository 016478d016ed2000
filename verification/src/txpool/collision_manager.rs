//! Index from exclusive resources to the pooled transactions that hold them.

use vstd::prelude::*;
use crate::txpool::storage::{live, vec_contains, Slots};
use crate::txpool::types::{
    has_resource, lemma_push_contains, Input, PoolTx, ResourceKey, StorageIndex, TxId,
};

verus! {

/// A pooled transaction that holds a resource which a candidate also wants.
#[derive(Clone, Copy, Debug, PartialEq, Eq, Structural)]
pub struct Collision {
    pub index: StorageIndex,
    /// The contested resource: the reason of the collision.
    pub reason: ResourceKey,
}

/// The collisions of `tx` among the first `n` of `holders`, in their order.
pub open spec fn collisions_of(holders: Seq<(ResourceKey, StorageIndex)>, tx: PoolTx, n: int) -> Seq<
    Collision,
>
    decreases n,
{
    if n <= 0 {
        Seq::empty()
    } else if tx.has_resource(holders[n - 1].0) {
        collisions_of(holders, tx, n - 1).push(
            Collision { index: holders[n - 1].1, reason: holders[n - 1].0 },
        )
    } else {
        collisions_of(holders, tx, n - 1)
    }
}

/// `holders` with the first `n` of `inputs` listed under the slot `index`,
/// in their order.
pub open spec fn holders_with(
    holders: Seq<(ResourceKey, StorageIndex)>,
    index: StorageIndex,
    inputs: Seq<Input>,
    n: int,
) -> Seq<(ResourceKey, StorageIndex)>
    decreases n,
{
    if n <= 0 {
        holders
    } else {
        holders_with(holders, index, inputs, n - 1).push((ResourceKey::Input(inputs[n - 1]), index))
    }
}

/// `holders` with every resource of `tx` listed under the slot `index`:
/// its inputs in their order, then its blob.
pub open spec fn holders_with_tx(
    holders: Seq<(ResourceKey, StorageIndex)>,
    index: StorageIndex,
    tx: PoolTx,
) -> Seq<(ResourceKey, StorageIndex)> {
    let listed = holders_with(holders, index, tx.inputs@, tx.inputs@.len() as int);
    match tx.blob_id {
        Some(blob) => listed.push((ResourceKey::Blob(blob), index)),
        None => listed,
    }
}

/// The first `n` of `holders` without what is listed under the slot
/// `index`, in their order.
pub open spec fn holders_without(
    holders: Seq<(ResourceKey, StorageIndex)>,
    index: StorageIndex,
    n: int,
) -> Seq<(ResourceKey, StorageIndex)>
    decreases n,
{
    if n <= 0 {
        Seq::empty()
    } else if holders[n - 1].1 != index {
        holders_without(holders, index, n - 1).push(holders[n - 1])
    } else {
        holders_without(holders, index, n - 1)
    }
}

pub struct CollisionManager {
    pub holders: Vec<(ResourceKey, StorageIndex)>,
}

impl CollisionManager {
    pub open spec fn view(&self) -> Seq<(ResourceKey, StorageIndex)> {
        self.holders@
    }

    /// The index lists exactly the resources of the live entries of `s`.
    pub open spec fn wf_for(&self, s: Slots) -> bool {
        forall|key: ResourceKey, i: StorageIndex| #[trigger]
            self@.contains((key, i)) <==> (live(s, i as int) && s[i as int].unwrap().transaction.has_resource(
                key,
            ))
    }

    pub fn new() -> (manager: CollisionManager)
        ensures
            manager@.len() == 0,
    {
        CollisionManager { holders: Vec::new() }
    }

    /// Every pooled holder of a resource of `tx`, with the resource.
    pub fn find_collisions(&self, tx: &PoolTx) -> (collisions: Vec<Collision>)
        ensures
            forall|key: ResourceKey, i: StorageIndex| #[trigger]
                collisions@.contains(Collision { index: i, reason: key }) <==> (self@.contains(
                    (key, i),
                ) && tx.has_resource(key)),
            collisions@ == collisions_of(self@, *tx, self@.len() as int),
    {
        let mut collisions: Vec<Collision> = Vec::new();
        let mut x: usize = 0;
        while x < self.holders.len()
            invariant
                x <= self.holders.len(),
                collisions@ == collisions_of(self@, *tx, x as int),
                forall|key: ResourceKey, i: StorageIndex| #[trigger]
                    collisions@.contains(Collision { index: i, reason: key }) <==> (
                    self@.subrange(0, x as int).contains((key, i)) && tx.has_resource(key)),
            decreases self.holders.len() - x,
        {
            let (key, index) = self.holders[x];
            proof {
                assert(self@.subrange(0, x + 1) =~= self@.subrange(0, x as int).push((key, index)));
                lemma_push_contains(self@.subrange(0, x as int), (key, index));
            }
            if has_resource(tx, key) {
                proof {
                    lemma_push_contains(collisions@, Collision { index, reason: key });
                }
                collisions.push(Collision { index, reason: key });
            }
            x += 1;
        }
        proof {
            assert(self@.subrange(0, self@.len() as int) =~= self@);
        }
        collisions
    }

    /// Lists every resource of `tx` under the slot `index`.
    pub fn on_stored_transaction(&mut self, index: StorageIndex, tx: &PoolTx)
        ensures
            final(self)@ == holders_with_tx(old(self)@, index, *tx),
            forall|key: ResourceKey, i: StorageIndex| #[trigger]
                final(self)@.contains((key, i)) <==> (old(self)@.contains((key, i)) || (i == index
                    && tx.has_resource(key))),
    {
        let mut x: usize = 0;
        while x < tx.inputs.len()
            invariant
                x <= tx.inputs.len(),
                self@ == holders_with(old(self)@, index, tx.inputs@, x as int),
                forall|key: ResourceKey, i: StorageIndex| #[trigger]
                    self@.contains((key, i)) <==> (old(self)@.contains((key, i)) || (i == index
                        && key is Input && tx.inputs@.subrange(0, x as int).contains(
                        key->Input_0,
                    ))),
            decreases tx.inputs.len() - x,
        {
            let input: Input = tx.inputs[x];
            proof {
                assert(tx.inputs@.subrange(0, x + 1) =~= tx.inputs@.subrange(0, x as int).push(
                    input,
                ));
                lemma_push_contains(tx.inputs@.subrange(0, x as int), input);
                lemma_push_contains(self@, (ResourceKey::Input(input), index));
            }
            self.holders.push((ResourceKey::Input(input), index));
            x += 1;
        }
        proof {
            assert(tx.inputs@.subrange(0, tx.inputs@.len() as int) =~= tx.inputs@);
        }
        match tx.blob_id {
            Some(blob) => {
                proof {
                    lemma_push_contains(self@, (ResourceKey::Blob(blob), index));
                }
                self.holders.push((ResourceKey::Blob(blob), index));
            },
            None => {},
        }
    }

    /// Drops everything listed under the slot `index`.
    pub fn on_removed_transaction(&mut self, index: StorageIndex)
        ensures
            final(self)@ == holders_without(old(self)@, index, old(self)@.len() as int),
            forall|key: ResourceKey, i: StorageIndex| #[trigger]
                final(self)@.contains((key, i)) <==> (old(self)@.contains((key, i)) && i != index),
    {
        let mut kept: Vec<(ResourceKey, StorageIndex)> = Vec::new();
        let mut x: usize = 0;
        while x < self.holders.len()
            invariant
                x <= self.holders.len(),
                kept@ == holders_without(self@, index, x as int),
                forall|key: ResourceKey, i: StorageIndex| #[trigger]
                    kept@.contains((key, i)) <==> (self@.subrange(0, x as int).contains((key, i))
                        && i != index),
            decreases self.holders.len() - x,
        {
            let pair: (ResourceKey, StorageIndex) = self.holders[x];
            proof {
                assert(self@.subrange(0, x + 1) =~= self@.subrange(0, x as int).push(pair));
                lemma_push_contains(self@.subrange(0, x as int), pair);
            }
            if pair.1 != index {
                proof {
                    lemma_push_contains(kept@, pair);
                }
                kept.push(pair);
            }
            x += 1;
        }
        proof {
            assert(self@.subrange(0, self@.len() as int) =~= self@);
        }
        self.holders = kept;
    }

    /// The slots of the pooled transactions that spend an output of the
    /// transaction `id`, each once.
    pub fn get_coins_spenders(&self, id: TxId) -> (spenders: Vec<StorageIndex>)
        ensures
            forall|i: StorageIndex| #[trigger]
                spenders@.contains(i) <==> (exists|out: u16| #[trigger]
                    self@.contains(
                        (ResourceKey::Input(Input::Coin { tx_id: id, output_index: out }), i),
                    )),
            spenders@.no_duplicates(),
    {
        let mut spenders: Vec<StorageIndex> = Vec::new();
        let mut x: usize = 0;
        while x < self.holders.len()
            invariant
                x <= self.holders.len(),
                spenders@.no_duplicates(),
                forall|i: StorageIndex| #[trigger]
                    spenders@.contains(i) <==> (exists|y: int|
                        0 <= y < x && #[trigger] spends_from(self@[y].0, id) && self@[y].1 == i),
            decreases self.holders.len() - x,
        {
            let (key, index) = self.holders[x];
            let hit: bool = match key {
                ResourceKey::Input(Input::Coin { tx_id, output_index }) => tx_id == id,
                _ => false,
            };
            if hit && !vec_contains(&spenders, index) {
                proof {
                    lemma_push_contains(spenders@, index);
                    assert(spends_from(self@[x as int].0, id));
                }
                spenders.push(index);
            }
            proof {
                if hit {
                    assert(spends_from(self@[x as int].0, id));
                }
            }
            x += 1;
        }
        proof {
            assert forall|i: StorageIndex| #[trigger]
                spenders@.contains(i) <==> (exists|out: u16| #[trigger]
                    self@.contains(
                        (ResourceKey::Input(Input::Coin { tx_id: id, output_index: out }), i),
                    )) by {
                if spenders@.contains(i) {
                    let y = choose|y: int|
                        0 <= y < x && #[trigger] spends_from(self@[y].0, id) && self@[y].1 == i;
                    let out = self@[y].0->Input_0->Coin_output_index;
                    let pair = (ResourceKey::Input(Input::Coin { tx_id: id, output_index: out }), i);
                    assert(self@[y].0 == pair.0);
                    assert(self@[y] == pair);
                    assert(self@.contains(pair));
                }
                if exists|out: u16| #[trigger]
                    self@.contains(
                        (ResourceKey::Input(Input::Coin { tx_id: id, output_index: out }), i),
                    ) {
                    let out = choose|out: u16| #[trigger]
                        self@.contains(
                            (ResourceKey::Input(Input::Coin { tx_id: id, output_index: out }), i),
                        );
                    let pair = (ResourceKey::Input(Input::Coin { tx_id: id, output_index: out }), i);
                    let y = choose|y: int| 0 <= y < self@.len() && self@[y] == pair;
                    assert(spends_from(self@[y].0, id) && self@[y].1 == i);
                    assert(spenders@.contains(i));
                }
            }
        }
        spenders
    }
}

/// Whether `key` is an output of the transaction `id`.
pub open spec fn spends_from(key: ResourceKey, id: TxId) -> bool {
    match key {
        ResourceKey::Input(Input::Coin { tx_id, .. }) => tx_id == id,
        _ => false,
    }
}

} // verus!
