//! Plain data of the transaction pool.

use vstd::prelude::*;

verus! {

/// Identifier of a transaction, unique for the lifetime of the process.
pub type TxId = u64;

/// Position of an entry in the pool storage.
pub type StorageIndex = usize;

#[derive(Clone, Copy, Debug, PartialEq, Eq, Structural)]
pub enum TxKind {
    Script,
    Create,
    Mint,
    Upload,
    Blob,
}

/// What a transaction consumes. Each input names one exclusive resource.
#[derive(Clone, Copy, Debug, PartialEq, Eq, Structural)]
pub enum Input {
    /// An output of an earlier transaction.
    Coin { tx_id: TxId, output_index: u16 },
    /// A contract, by its identifier.
    Contract { contract_id: u64 },
    /// A message relayed from the base layer, by its nonce.
    Message { nonce: u64 },
}

#[derive(Clone, Copy, Debug, PartialEq, Eq, Structural)]
pub enum Output {
    Coin,
    Contract,
    Change,
    Variable,
}

/// A resource that at most one pooled transaction may hold.
#[derive(Clone, Copy, Debug, PartialEq, Eq, Structural)]
pub enum ResourceKey {
    Input(Input),
    Blob(u64),
}

/// A transaction as the pool sees it. It never changes once admitted.
#[derive(Debug)]
pub struct PoolTx {
    pub id: TxId,
    pub kind: TxKind,
    pub inputs: Vec<Input>,
    pub outputs: Vec<Output>,
    pub max_gas: u64,
    pub tip: u64,
    pub metered_bytes_size: u64,
    pub blob_id: Option<u64>,
}

impl PoolTx {
    /// Whether the transaction holds the resource `key`.
    pub open spec fn has_resource(&self, key: ResourceKey) -> bool {
        match key {
            ResourceKey::Input(input) => self.inputs@.contains(input),
            ResourceKey::Blob(blob) => self.blob_id == Some(blob),
        }
    }

    /// Whether the transaction spends an output of the transaction `parent`.
    pub open spec fn spends_output_of(&self, parent: TxId) -> bool {
        exists|out: u16|
            #[trigger] self.inputs@.contains(Input::Coin { tx_id: parent, output_index: out })
    }
}

/// Whether `input` is an output of the transaction `parent`.
pub open spec fn is_output_of(input: Input, parent: TxId) -> bool {
    match input {
        Input::Coin { tx_id, .. } => tx_id == parent,
        _ => false,
    }
}

/// Whether `tx` spends an output of the transaction `parent`.
pub fn spends_output_of(tx: &PoolTx, parent: TxId) -> (spends: bool)
    ensures
        spends == tx.spends_output_of(parent),
{
    let mut i: usize = 0;
    while i < tx.inputs.len()
        invariant
            i <= tx.inputs.len(),
            forall|x: int| 0 <= x < i ==> !is_output_of(#[trigger] tx.inputs@[x], parent),
        decreases tx.inputs.len() - i,
    {
        let hit: bool = match tx.inputs[i] {
            Input::Coin { tx_id, output_index } => tx_id == parent,
            _ => false,
        };
        if hit {
            proof {
                let out = tx.inputs@[i as int]->Coin_output_index;
                assert(tx.inputs@[i as int] == Input::Coin { tx_id: parent, output_index: out });
                assert(tx.inputs@.contains(Input::Coin { tx_id: parent, output_index: out }));
            }
            return true;
        }
        i += 1;
    }
    proof {
        if tx.spends_output_of(parent) {
            let out = choose|out: u16| #[trigger]
                tx.inputs@.contains(Input::Coin { tx_id: parent, output_index: out });
            let key = Input::Coin { tx_id: parent, output_index: out };
            let w = choose|w: int| 0 <= w < tx.inputs@.len() && tx.inputs@[w] == key;
            assert(is_output_of(tx.inputs@[w], parent));
        }
    }
    false
}

/// Whether `tx` holds the resource `key`.
pub fn has_resource(tx: &PoolTx, key: ResourceKey) -> (has: bool)
    ensures
        has == tx.has_resource(key),
{
    match key {
        ResourceKey::Input(input) => {
            let mut i: usize = 0;
            while i < tx.inputs.len()
                invariant
                    i <= tx.inputs.len(),
                    key == ResourceKey::Input(input),
                    forall|x: int| 0 <= x < i ==> tx.inputs@[x] != input,
                decreases tx.inputs.len() - i,
            {
                if tx.inputs[i] == input {
                    proof {
                        assert(tx.inputs@[i as int] == input);
                    }
                    return true;
                }
                i += 1;
            }
            false
        },
        ResourceKey::Blob(blob) => match tx.blob_id {
            Some(own) => own == blob,
            None => false,
        },
    }
}

/// What pushing `x` does to membership.
pub proof fn lemma_push_contains<T>(before: Seq<T>, x: T)
    ensures
        forall|d: T| #[trigger] before.push(x).contains(d) <==> (before.contains(d) || d == x),
{
    assert forall|d: T| #[trigger] before.push(x).contains(d) <==> (before.contains(d) || d
        == x) by {
        if before.contains(d) {
            let w = choose|w: int| 0 <= w < before.len() && before[w] == d;
            assert(before.push(x)[w] == d);
        }
        if d == x {
            assert(before.push(x)[before.len() as int] == d);
        }
    }
}

} // verus!
