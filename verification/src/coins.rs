//! Keys of the index of coins by owner, and reads that may find nothing.

use vstd::prelude::*;

verus! {

/// Length of an address and of a transaction identifier, in bytes.
pub const ID_LENGTH: usize = 32;

/// Length of a key of the index: owner, transaction and output index.
pub const KEY_LENGTH: usize = 66;

/// A coin: an output of a transaction.
#[derive(Debug, PartialEq, Eq)]
pub struct UtxoId {
    pub tx_id: Vec<u8>,
    pub output_index: u16,
}

/// The number that two bytes stand for, the first being the higher one.
pub open spec fn be_u16(high: u8, low: u8) -> int {
    high * 256 + low
}

/// The key under which the coin `(tx_id, output_index)` of `owner` is
/// indexed: the owner, the transaction, and the output index with its
/// higher byte first.
pub open spec fn spec_owner_coin_id_key(owner: Seq<u8>, tx_id: Seq<u8>, output_index: u16) -> Seq<
    u8,
> {
    owner + tx_id + seq![(output_index / 256) as u8, (output_index % 256) as u8]
}

/// The key under which a coin of `owner` is indexed.
pub fn owner_coin_id_key(owner: &Vec<u8>, coin: &UtxoId) -> (key: Vec<u8>)
    requires
        owner@.len() == ID_LENGTH,
        coin.tx_id@.len() == ID_LENGTH,
    ensures
        key@ == spec_owner_coin_id_key(owner@, coin.tx_id@, coin.output_index),
        key@.len() == KEY_LENGTH,
{
    let mut key: Vec<u8> = Vec::new();
    let mut i: usize = 0;
    while i < ID_LENGTH
        invariant
            i <= ID_LENGTH,
            owner@.len() == ID_LENGTH,
            key@ == owner@.subrange(0, i as int),
        decreases ID_LENGTH - i,
    {
        key.push(owner[i]);
        proof {
            assert(key@ =~= owner@.subrange(0, i + 1));
        }
        i += 1;
    }
    let mut j: usize = 0;
    while j < ID_LENGTH
        invariant
            j <= ID_LENGTH,
            owner@.len() == ID_LENGTH,
            coin.tx_id@.len() == ID_LENGTH,
            key@ == owner@ + coin.tx_id@.subrange(0, j as int),
        decreases ID_LENGTH - j,
    {
        key.push(coin.tx_id[j]);
        proof {
            assert(key@ =~= owner@ + coin.tx_id@.subrange(0, j + 1));
        }
        j += 1;
    }
    key.push((coin.output_index / 256) as u8);
    key.push((coin.output_index % 256) as u8);
    proof {
        assert(coin.tx_id@.subrange(0, ID_LENGTH as int) =~= coin.tx_id@);
        assert(key@ =~= spec_owner_coin_id_key(owner@, coin.tx_id@, coin.output_index));
    }
    key
}

/// The coin that a key of the index names: the transaction in the bytes
/// from 32 to 64, and the output index in the last two.
pub fn coin_of_key(key: &Vec<u8>) -> (coin: UtxoId)
    requires
        key@.len() == KEY_LENGTH,
    ensures
        coin.tx_id@ == key@.subrange(32, 64),
        coin.output_index == be_u16(key@[64], key@[65]),
{
    let mut tx_id: Vec<u8> = Vec::new();
    let mut i: usize = 0;
    while i < ID_LENGTH
        invariant
            i <= ID_LENGTH,
            key@.len() == KEY_LENGTH,
            tx_id@ == key@.subrange(32, 32 + i as int),
        decreases ID_LENGTH - i,
    {
        tx_id.push(key[32 + i]);
        proof {
            assert(tx_id@ =~= key@.subrange(32, 32 + i + 1));
        }
        i += 1;
    }
    let output_index: u16 = (key[64] as u16) * 256 + key[65] as u16;
    UtxoId { tx_id, output_index }
}

/// The coins that the keys `keys` of the index name, in their order.
pub fn owned_coins_ids(keys: &Vec<Vec<u8>>) -> (coins: Vec<UtxoId>)
    requires
        forall|x: int| 0 <= x < keys@.len() ==> (#[trigger] keys@[x])@.len() == KEY_LENGTH,
    ensures
        coins@.len() == keys@.len(),
        forall|x: int|
            0 <= x < keys@.len() ==> (#[trigger] coins@[x]).tx_id@ == keys@[x]@.subrange(32, 64)
                && coins@[x].output_index == be_u16(keys@[x]@[64], keys@[x]@[65]),
{
    let mut coins: Vec<UtxoId> = Vec::new();
    let mut i: usize = 0;
    while i < keys.len()
        invariant
            i <= keys.len(),
            coins@.len() == i,
            forall|x: int| 0 <= x < keys@.len() ==> (#[trigger] keys@[x])@.len() == KEY_LENGTH,
            forall|x: int|
                0 <= x < i ==> (#[trigger] coins@[x]).tx_id@ == keys@[x]@.subrange(32, 64)
                    && coins@[x].output_index == be_u16(keys@[x]@[64], keys@[x]@[65]),
        decreases keys.len() - i,
    {
        let coin = coin_of_key(&keys[i]);
        coins.push(coin);
        i += 1;
    }
    coins
}

/// The coin that a read of the table of coins found, or the error that
/// there is none.
pub fn coin<C>(found: Option<C>) -> (res: Result<C, StorageError>)
    ensures
        res == (match found {
            Some(c) => Ok::<C, StorageError>(c),
            None => Err::<C, StorageError>(StorageError::NotFound),
        }),
{
    match found {
        Some(c) => Ok(c),
        None => Err(StorageError::NotFound),
    }
}

/// A key names the coin it was made for.
pub proof fn lemma_key_names_its_coin(owner: Seq<u8>, tx_id: Seq<u8>, output_index: u16)
    requires
        owner.len() == ID_LENGTH,
        tx_id.len() == ID_LENGTH,
    ensures
        spec_owner_coin_id_key(owner, tx_id, output_index).len() == KEY_LENGTH,
        spec_owner_coin_id_key(owner, tx_id, output_index).subrange(32, 64) == tx_id,
        be_u16(
            spec_owner_coin_id_key(owner, tx_id, output_index)[64],
            spec_owner_coin_id_key(owner, tx_id, output_index)[65],
        ) == output_index,
{
    let key = spec_owner_coin_id_key(owner, tx_id, output_index);
    assert(key.subrange(32, 64) =~= tx_id);
}

/// Why a read of the storage gave nothing.
#[derive(Clone, Copy, Debug, PartialEq, Eq, Structural)]
pub enum StorageError {
    NotFound,
    /// The storage failed, with its code.
    Other(u32),
}

/// What a read gives to a query: a value that is not there is no error.
pub fn into_api_result<T>(res: Result<T, StorageError>) -> (out: Result<Option<T>, StorageError>)
    ensures
        out == (match res {
            Ok(value) => Ok(Some(value)),
            Err(StorageError::NotFound) => Ok(None),
            Err(e) => Err(e),
        }),
{
    match res {
        Ok(value) => Ok(Some(value)),
        Err(StorageError::NotFound) => Ok(None),
        Err(e) => Err(e),
    }
}

} // verus!
