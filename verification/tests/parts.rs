use fuel_node::txpool::collision_manager::{Collision, CollisionManager};
use fuel_node::txpool::extracted_outputs::ExtractedOutputs;
use fuel_node::txpool::selection::{check_fits, is_better, Constraints, SelectionAlgorithm};
use fuel_node::txpool::spent_inputs::{SpentInputs, SpentKey};
use fuel_node::txpool::storage::Storage;
use fuel_node::txpool::types::{
    has_resource, spends_output_of, Input, Output, PoolTx, ResourceKey, TxKind,
};

fn coin(tx_id: u64, output_index: u16) -> Input {
    Input::Coin { tx_id, output_index }
}

fn tx(id: u64, inputs: Vec<Input>, tip: u64, max_gas: u64) -> PoolTx {
    PoolTx {
        id,
        kind: TxKind::Script,
        inputs,
        outputs: vec![Output::Coin],
        max_gas,
        tip,
        metered_bytes_size: 10,
        blob_id: None,
    }
}

#[test]
fn spent_inputs_forget_the_oldest() {
    let mut cache = SpentInputs::new(3);
    cache.remember(SpentKey::Tx(1));
    cache.remember(SpentKey::Tx(2));
    cache.remember(SpentKey::Tx(3));
    cache.remember(SpentKey::Tx(1));
    assert_eq!(cache.spent, vec![SpentKey::Tx(2), SpentKey::Tx(3), SpentKey::Tx(1)]);
    cache.remember(SpentKey::Tx(4));
    assert_eq!(cache.spent, vec![SpentKey::Tx(3), SpentKey::Tx(1), SpentKey::Tx(4)]);
    assert!(!cache.is_spent_tx(2));
    assert!(cache.is_spent_tx(1));
}

#[test]
fn tentative_spend_is_taken_back() {
    let mut cache = SpentInputs::new(10);
    let a = coin(1, 0);
    let m = Input::Message { nonce: 5 };
    let c = Input::Contract { contract_id: 9 };
    cache.maybe_spend_inputs(7, &vec![a, m, c]);
    cache.spend_inputs(8, &vec![coin(2, 0)]);
    assert!(cache.is_spent_tx(7));
    assert!(cache.is_spent_input(a));
    assert!(cache.is_spent_input(m));
    assert!(!cache.is_spent_input(c));
    cache.unspend_inputs(7);
    assert!(!cache.is_spent_tx(7));
    assert!(!cache.is_spent_input(a));
    assert!(!cache.is_spent_input(m));
    assert!(cache.is_spent_tx(8));
    assert!(cache.is_spent_input(coin(2, 0)));
    cache.unspend_inputs(8);
    assert!(cache.is_spent_input(coin(2, 0)));
    assert!(!cache.is_spent_tx(8));
}

#[test]
fn committed_spend_stays() {
    let mut cache = SpentInputs::new(10);
    let a = coin(1, 0);
    cache.maybe_spend_inputs(7, &vec![a]);
    cache.spend_inputs_by_tx_id(7);
    cache.unspend_inputs(7);
    assert!(cache.is_spent_input(a));
    cache.spend_inputs_by_tx_id(99);
    assert!(!cache.is_spent_tx(99));
}

#[test]
fn extracted_outputs_are_remembered() {
    let mut outputs = ExtractedOutputs::new();
    let mut t = tx(3, vec![], 1, 1);
    t.outputs = vec![Output::Coin, Output::Change];
    outputs.new_extracted_transaction(&t);
    assert!(outputs.contains(3, 0));
    assert!(outputs.contains(3, 1));
    assert!(!outputs.contains(3, 2));
    assert!(!outputs.contains(4, 0));
    outputs.new_skipped_transaction(3);
    assert!(!outputs.contains(3, 0));
    outputs.new_extracted_transaction(&t);
    outputs.clear();
    assert!(!outputs.contains(3, 0));
}

#[test]
fn collisions_name_the_resource() {
    let mut manager = CollisionManager::new();
    let a = coin(10, 0);
    let m = Input::Message { nonce: 5 };
    let mut blob = tx(2, vec![m], 1, 1);
    blob.blob_id = Some(66);
    manager.on_stored_transaction(0, &tx(1, vec![a, coin(10, 1)], 1, 1));
    manager.on_stored_transaction(1, &blob);
    let mut rival = tx(3, vec![a, m], 1, 1);
    rival.blob_id = Some(66);
    let found = manager.find_collisions(&rival);
    assert_eq!(found.len(), 3);
    assert!(found.contains(&Collision { index: 0, reason: ResourceKey::Input(a) }));
    assert!(found.contains(&Collision { index: 1, reason: ResourceKey::Input(m) }));
    assert!(found.contains(&Collision { index: 1, reason: ResourceKey::Blob(66) }));
    assert_eq!(manager.get_coins_spenders(10), vec![0]);
    assert!(manager.get_coins_spenders(11).is_empty());
    manager.on_removed_transaction(1);
    assert_eq!(manager.find_collisions(&rival).len(), 1);
}

#[test]
fn resources_and_parents() {
    let t = tx(1, vec![coin(4, 2), Input::Contract { contract_id: 8 }], 1, 1);
    assert!(spends_output_of(&t, 4));
    assert!(!spends_output_of(&t, 8));
    assert!(has_resource(&t, ResourceKey::Input(Input::Contract { contract_id: 8 })));
    assert!(!has_resource(&t, ResourceKey::Input(coin(4, 1))));
    assert!(!has_resource(&t, ResourceKey::Blob(1)));
}

#[test]
fn storage_tracks_the_graph() {
    let mut storage = Storage::new();
    let root = storage.store_transaction(tx(1, vec![coin(50, 0)], 5, 10), vec![], 1);
    let child_tx = tx(2, vec![coin(1, 0)], 7, 20);
    assert_eq!(storage.direct_parents(&child_tx), vec![root]);
    let deps = storage.can_store_transaction(&child_tx);
    assert_eq!(deps, vec![root]);
    let child = storage.store_transaction(child_tx, deps, 2);
    let grand_tx = tx(3, vec![coin(2, 0)], 1, 30);
    let deps = storage.can_store_transaction(&grand_tx);
    assert_eq!(deps, vec![root, child]);
    let grand = storage.store_transaction(grand_tx, deps, 3);
    assert_eq!(storage.get_direct_dependents(root), vec![child]);
    assert_eq!(storage.get_direct_dependents(child), vec![grand]);
    assert_eq!(storage.subtree(child), vec![child, grand]);
    assert_eq!(storage.find(3), Some(grand));
    assert_eq!(storage.find(4), None);
    assert_eq!(storage.get(root).unwrap().dependents_cumulative_gas, 60);
    assert_eq!(storage.get(root).unwrap().dependents_cumulative_tip, 13);
    let removed = storage.remove_transaction(child).unwrap();
    assert_eq!(removed.transaction.id, 2);
    assert_eq!(storage.get(root).unwrap().dependents_cumulative_gas, 40);
    assert_eq!(storage.get(root).unwrap().number_dependents_in_chain, 2);
    assert_eq!(storage.get(grand).unwrap().dependencies, vec![root]);
    assert!(storage.remove_transaction(child).is_none());
    assert!(storage.has_dependencies(grand));
    assert!(!storage.has_dependencies(root));
    let reused = storage.store_transaction(tx(9, vec![], 1, 1), vec![], 4);
    assert_eq!(reused, child);
}

#[test]
fn order_of_selection() {
    let a = tx(1, vec![], 10, 100);
    let b = tx(2, vec![], 20, 100);
    let c = tx(3, vec![], 1, 10);
    assert!(is_better(&b, &a));
    assert!(!is_better(&a, &b));
    assert!(is_better(&a, &c));
    assert!(!is_better(&c, &a));
    let huge = tx(4, vec![], u64::MAX, u64::MAX);
    let big = tx(5, vec![], u64::MAX - 1, u64::MAX);
    assert!(is_better(&huge, &big));
    assert!(!is_better(&big, &huge));
    let left = Constraints { max_gas: 100, maximum_txs: 1, maximum_block_size: 10 };
    assert!(check_fits(&a, &left));
    assert!(!check_fits(&a, &Constraints { max_gas: 99, ..left }));
    assert!(!check_fits(&a, &Constraints { maximum_txs: 0, ..left }));
    assert!(!check_fits(&a, &Constraints { maximum_block_size: 9, ..left }));
}

#[test]
fn least_worth_comes_first() {
    let mut storage = Storage::new();
    let mut selection = SelectionAlgorithm::new();
    for (id, tip) in [(1u64, 30u64), (2, 10), (3, 20)] {
        let index = storage.store_transaction(tx(id, vec![], tip, 100), vec![], 0);
        selection.new_executable_transaction(index);
    }
    assert_eq!(selection.get_less_worth_txs(&storage), vec![1, 2, 0]);
    let left = Constraints { max_gas: 1000, maximum_txs: 5, maximum_block_size: 1000 };
    assert_eq!(selection.best_executable(&storage, &left), Some(0));
    selection.on_removed_transaction(0);
    assert_eq!(selection.number_of_executable_transactions(), 2);
    assert_eq!(selection.best_executable(&storage, &left), Some(2));
    let none = Constraints { max_gas: 1, maximum_txs: 5, maximum_block_size: 1000 };
    assert_eq!(selection.best_executable(&storage, &none), None);
}

#[test]
fn equal_worth_leaves_by_greater_id() {
    let mut storage = Storage::new();
    let mut selection = SelectionAlgorithm::new();
    for (id, tip, gas) in [(4u64, 10u64, 100u64), (7, 20, 200), (5, 1, 10)] {
        let index = storage.store_transaction(tx(id, vec![], tip, gas), vec![], 0);
        selection.new_executable_transaction(index);
    }
    assert_eq!(selection.get_less_worth_txs(&storage), vec![1, 2, 0]);
    let left = Constraints { max_gas: 1000, maximum_txs: 5, maximum_block_size: 1000 };
    assert_eq!(selection.best_executable(&storage, &left), Some(0));
}
