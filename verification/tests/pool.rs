use fuel_node::txpool::error::{
    DependencyError, Error, InputValidationError, RemovedReason, SkipCause,
};
use fuel_node::txpool::admission::SpaceCheckResult;
use fuel_node::txpool::pool::{Config, Pool, PoolLimits};
use fuel_node::txpool::selection::Constraints;
use fuel_node::txpool::types::{Input, Output, PoolTx, TxKind};
use fuel_node::txpool::validation::PersistentFacts;

fn limits(max_txs: usize) -> PoolLimits {
    PoolLimits { max_gas: 1_000_000, max_bytes_size: 1_000_000, max_txs }
}

fn pool(max_txs: usize) -> Pool {
    Pool::new(Config { utxo_validation: true, pool_limits: limits(max_txs), black_list: vec![] })
}

fn facts(known: Vec<Input>) -> PersistentFacts {
    PersistentFacts { contains_tx: false, blob_exists: false, known_inputs: known }
}

fn coin(tx_id: u64, output_index: u16) -> Input {
    Input::Coin { tx_id, output_index }
}

fn tx(id: u64, inputs: Vec<Input>, tip: u64, max_gas: u64) -> PoolTx {
    PoolTx {
        id,
        kind: TxKind::Script,
        inputs,
        outputs: vec![Output::Coin, Output::Change],
        max_gas,
        tip,
        metered_bytes_size: 100,
        blob_id: None,
    }
}

fn ids(txs: &[PoolTx]) -> Vec<u64> {
    let mut out: Vec<u64> = txs.iter().map(|t| t.id).collect();
    out.sort();
    out
}

#[test]
fn insert_keeps_totals() {
    let mut p = pool(10);
    let a = coin(1000, 0);
    let b = coin(1001, 0);
    p.insert(tx(1, vec![a], 10, 100), &facts(vec![a]), 5).unwrap();
    p.insert(tx(2, vec![b], 20, 300), &facts(vec![b]), 6).unwrap();
    assert_eq!(p.tx_count(), 2);
    assert_eq!(p.current_gas, 400);
    assert_eq!(p.current_bytes_size, 200);
    let stats = p.stats();
    assert_eq!(stats.tx_count, 2);
    assert_eq!(stats.total_gas, 400);
    assert_eq!(stats.total_size, 200);
    assert!(p.contains(1));
    assert!(p.contains(2));
    assert!(!p.contains(3));
    assert_eq!(p.get(2).unwrap().creation_instant, 6);
    let mut listed = p.iter_tx_ids();
    listed.sort();
    assert_eq!(listed, vec![1, 2]);
}

#[test]
fn insert_rejects_zero_gas() {
    let mut p = pool(10);
    let a = coin(1000, 0);
    let res = p.insert(tx(1, vec![a], 10, 0), &facts(vec![a]), 5);
    assert_eq!(res.err(), Some(Error::InputValidation(InputValidationError::MaxGasZero)));
    assert_eq!(p.tx_count(), 0);
}

#[test]
fn insert_rejects_duplicate_id() {
    let mut p = pool(10);
    let a = coin(1000, 0);
    let b = coin(1001, 0);
    p.insert(tx(1, vec![a], 10, 100), &facts(vec![a]), 5).unwrap();
    let res = p.insert(tx(1, vec![b], 10, 100), &facts(vec![b]), 5);
    assert_eq!(res.err(), Some(Error::InputValidation(InputValidationError::DuplicateTxId(1))));
    assert_eq!(p.tx_count(), 1);
}

#[test]
fn insert_rejects_committed_transaction() {
    let mut p = pool(10);
    let a = coin(1000, 0);
    let known = PersistentFacts { contains_tx: true, blob_exists: false, known_inputs: vec![a] };
    let res = p.insert(tx(1, vec![a], 10, 100), &known, 5);
    assert_eq!(res.err(), Some(Error::InputValidation(InputValidationError::DuplicateTxId(1))));
}

#[test]
fn insert_rejects_unknown_input() {
    let mut p = pool(10);
    let a = coin(1000, 0);
    let res = p.insert(tx(1, vec![a], 10, 100), &facts(vec![]), 5);
    assert_eq!(res.err(), Some(Error::InputValidation(InputValidationError::UnknownInput(a))));
}

#[test]
fn insert_rejects_blacklisted_input() {
    let a = coin(1000, 0);
    let mut p = Pool::new(Config {
        utxo_validation: true,
        pool_limits: limits(10),
        black_list: vec![a],
    });
    let res = p.insert(tx(1, vec![a], 10, 100), &facts(vec![a]), 5);
    assert_eq!(res.err(), Some(Error::Blacklisted(a)));
}

#[test]
fn insert_rejects_taken_blob() {
    let mut p = pool(10);
    let a = coin(1000, 0);
    let mut t = tx(1, vec![a], 10, 100);
    t.kind = TxKind::Blob;
    t.blob_id = Some(77);
    let known = PersistentFacts { contains_tx: false, blob_exists: true, known_inputs: vec![a] };
    let res = p.insert(t, &known, 5);
    assert_eq!(
        res.err(),
        Some(Error::InputValidation(InputValidationError::NotInsertedBlobIdAlreadyTaken(77)))
    );
}

#[test]
fn dependent_updates_cumulative_counters() {
    let mut p = pool(10);
    let a = coin(1000, 0);
    let first = p.insert(tx(1, vec![a], 10, 100), &facts(vec![a]), 5).unwrap();
    assert!(!first.has_dependencies);
    let second = p.insert(tx(2, vec![coin(1, 0)], 30, 200), &facts(vec![]), 6).unwrap();
    assert!(second.has_dependencies);
    let third = p.insert(tx(3, vec![coin(2, 1)], 5, 50), &facts(vec![]), 7).unwrap();
    assert!(third.has_dependencies);
    let root = p.get(1).unwrap();
    assert_eq!(root.dependents_cumulative_tip, 45);
    assert_eq!(root.dependents_cumulative_gas, 350);
    assert_eq!(root.dependents_cumulative_bytes_size, 300);
    assert_eq!(root.number_dependents_in_chain, 3);
    let middle = p.get(2).unwrap();
    assert_eq!(middle.dependents_cumulative_tip, 35);
    assert_eq!(middle.dependents_cumulative_gas, 250);
    assert_eq!(middle.number_dependents_in_chain, 2);
    assert_eq!(p.get(3).unwrap().dependencies.len(), 2);
    assert_eq!(p.selection_algorithm.number_of_executable_transactions(), 1);
}

#[test]
fn collision_with_lower_ratio_is_evicted() {
    let mut p = pool(10);
    let a = coin(1000, 0);
    p.insert(tx(1, vec![a], 10, 100), &facts(vec![a]), 5).unwrap();
    p.insert(tx(2, vec![coin(1, 0)], 10, 100), &facts(vec![]), 5).unwrap();
    let ins = p.insert(tx(3, vec![a], 30, 100), &facts(vec![a]), 6).unwrap();
    assert_eq!(ids(&ins.removed), vec![1, 2]);
    assert_eq!(ins.reason, Error::Removed(RemovedReason::LessWorth(3)));
    assert_eq!(p.tx_count(), 1);
    assert!(p.contains(3));
    assert_eq!(p.current_gas, 100);
}

#[test]
fn collision_with_equal_ratio_is_kept() {
    let mut p = pool(10);
    let a = coin(1000, 0);
    p.insert(tx(1, vec![a], 10, 100), &facts(vec![a]), 5).unwrap();
    let res = p.insert(tx(3, vec![a], 20, 200), &facts(vec![a]), 6);
    assert!(matches!(res, Err(Error::Collided(c)) if c.index == 0));
    assert!(p.contains(1));
    assert_eq!(p.tx_count(), 1);
}

#[test]
fn collision_that_is_dependency_is_refused() {
    let mut p = pool(10);
    let a = coin(1000, 0);
    p.insert(tx(1, vec![a], 10, 100), &facts(vec![a]), 5).unwrap();
    let res = p.insert(tx(2, vec![a, coin(1, 0)], 50, 100), &facts(vec![a]), 6);
    assert_eq!(
        res.err(),
        Some(Error::Dependency(DependencyError::NotInsertedCollisionIsDependency))
    );
    assert_eq!(p.tx_count(), 1);
}

#[test]
fn eviction_by_ratio() {
    let mut p = pool(2);
    let a = coin(1000, 0);
    let b = coin(1001, 0);
    let c = coin(1002, 0);
    p.insert(tx(1, vec![a], 10, 100), &facts(vec![a]), 5).unwrap();
    p.insert(tx(2, vec![b], 20, 100), &facts(vec![b]), 5).unwrap();
    let probe = p.can_fit_into_pool(&tx(9, vec![c], 10, 100), false).unwrap();
    assert!(matches!(probe, SpaceCheckResult::NotEnoughSpace(left) if left.txs_left == 3));
    let lower = p.insert(tx(3, vec![c], 9, 100), &facts(vec![c]), 6);
    assert_eq!(lower.err(), Some(Error::NotInsertedLimitHit));
    assert_eq!(p.tx_count(), 2);
    assert!(p.contains(1));
    let ins = p.insert(tx(4, vec![c], 15, 100), &facts(vec![c]), 6).unwrap();
    assert_eq!(ids(&ins.removed), vec![1]);
    assert!(p.contains(2));
    assert!(p.contains(4));
    assert_eq!(p.tx_count(), 2);
}

#[test]
fn full_pool_refuses_dependent() {
    let mut p = pool(1);
    let a = coin(1000, 0);
    p.insert(tx(1, vec![a], 10, 100), &facts(vec![a]), 5).unwrap();
    let res = p.insert(tx(2, vec![coin(1, 0)], 1000, 100), &facts(vec![]), 6);
    assert_eq!(res.err(), Some(Error::NotInsertedLimitHit));
}

#[test]
fn extraction_follows_ratio_and_dependencies() {
    let mut p = pool(10);
    let a = coin(1000, 0);
    let b = coin(1001, 0);
    p.insert(tx(1, vec![a], 10, 100), &facts(vec![a]), 5).unwrap();
    p.insert(tx(2, vec![coin(1, 0)], 90, 100), &facts(vec![]), 5).unwrap();
    p.insert(tx(3, vec![b], 20, 100), &facts(vec![b]), 5).unwrap();
    let out = p.extract_transactions_for_block(Constraints {
        max_gas: 1000,
        maximum_txs: 10,
        maximum_block_size: 10_000,
    });
    let order: Vec<u64> = out.iter().map(|t| t.id).collect();
    assert_eq!(order, vec![3, 1, 2]);
    assert_eq!(p.tx_count(), 0);
    assert_eq!(p.current_gas, 0);
    assert!(p.spent_inputs.is_spent_tx(1));
    assert!(p.spent_inputs.is_spent_input(a));
    assert!(p.extracted_outputs.contains(2, 1));
    assert!(!p.extracted_outputs.contains(2, 2));
}

#[test]
fn extraction_breaks_ties_by_id() {
    let mut p = pool(10);
    let a = coin(1000, 0);
    let b = coin(1001, 0);
    p.insert(tx(7, vec![a], 10, 100), &facts(vec![a]), 5).unwrap();
    p.insert(tx(4, vec![b], 20, 200), &facts(vec![b]), 5).unwrap();
    let out = p.extract_transactions_for_block(Constraints {
        max_gas: 1000,
        maximum_txs: 10,
        maximum_block_size: 10_000,
    });
    let order: Vec<u64> = out.iter().map(|t| t.id).collect();
    assert_eq!(order, vec![4, 7]);
}

#[test]
fn extraction_honours_budget() {
    let mut p = pool(10);
    let a = coin(1000, 0);
    let b = coin(1001, 0);
    let c = coin(1002, 0);
    p.insert(tx(1, vec![a], 50, 600), &facts(vec![a]), 5).unwrap();
    p.insert(tx(2, vec![b], 40, 600), &facts(vec![b]), 5).unwrap();
    p.insert(tx(3, vec![c], 1, 300), &facts(vec![c]), 5).unwrap();
    let out = p.extract_transactions_for_block(Constraints {
        max_gas: 1000,
        maximum_txs: 10,
        maximum_block_size: 10_000,
    });
    let order: Vec<u64> = out.iter().map(|t| t.id).collect();
    assert_eq!(order, vec![1, 3]);
    assert_eq!(p.tx_count(), 1);
    assert!(p.contains(2));
    let none = p.extract_transactions_for_block(Constraints {
        max_gas: 1000,
        maximum_txs: 0,
        maximum_block_size: 10_000,
    });
    assert!(none.is_empty());
}

#[test]
fn committed_parent_promotes_dependent() {
    let mut p = pool(10);
    let a = coin(1000, 0);
    p.insert(tx(1, vec![a], 10, 100), &facts(vec![a]), 5).unwrap();
    p.insert(tx(2, vec![coin(1, 0)], 10, 100), &facts(vec![]), 5).unwrap();
    assert!(p.storage.has_dependencies(1));
    let promoted = p.process_committed_transactions(&vec![1]);
    assert!(promoted);
    assert!(!p.contains(1));
    assert!(p.contains(2));
    assert!(!p.storage.has_dependencies(1));
    assert_eq!(p.selection_algorithm.number_of_executable_transactions(), 1);
    assert_eq!(p.get(2).unwrap().number_dependents_in_chain, 1);
    assert!(p.spent_inputs.is_spent_tx(1));
    assert!(!p.process_committed_transactions(&vec![55]));
}

#[test]
fn remove_with_dependents() {
    let mut p = pool(10);
    let a = coin(1000, 0);
    let b = coin(1001, 0);
    p.insert(tx(1, vec![a], 10, 100), &facts(vec![a]), 5).unwrap();
    p.insert(tx(2, vec![coin(1, 0)], 10, 100), &facts(vec![]), 5).unwrap();
    p.insert(tx(3, vec![b], 10, 100), &facts(vec![b]), 5).unwrap();
    let removed = p.remove_transactions_and_dependents(&vec![1, 99]);
    assert_eq!(ids(&removed), vec![1, 2]);
    assert_eq!(p.tx_count(), 1);
    assert_eq!(p.current_gas, 100);
    assert!(p.collision_manager.find_collisions(&tx(8, vec![a], 1, 1)).is_empty());
}

#[test]
fn skip_cascade() {
    let mut p = pool(10);
    let a = coin(1000, 0);
    p.insert(tx(1, vec![a], 10, 100), &facts(vec![a]), 5).unwrap();
    p.insert(tx(2, vec![coin(1, 0)], 10, 100), &facts(vec![]), 5).unwrap();
    let out = p.remove_skipped_transaction(1);
    assert_eq!(ids(&out.removed), vec![1, 2]);
    assert!(out.dependents.is_empty());
    assert_eq!(out.removed_reason, Error::SkippedTransaction(SkipCause::Skipped(1)));
    assert_eq!(out.dependents_reason, Error::SkippedTransaction(SkipCause::ParentSkipped(1)));
    assert_eq!(p.tx_count(), 0);
    assert!(!p.spent_inputs.is_spent_input(a));
}

#[test]
fn skip_of_extracted_parent_removes_child_and_unspends() {
    let mut p = pool(10);
    let a = coin(1000, 0);
    p.insert(tx(1, vec![a], 10, 100), &facts(vec![a]), 5).unwrap();
    let out = p.extract_transactions_for_block(Constraints {
        max_gas: 1000,
        maximum_txs: 10,
        maximum_block_size: 10_000,
    });
    assert_eq!(out.len(), 1);
    assert!(p.spent_inputs.is_spent_input(a));
    p.insert(tx(2, vec![coin(1, 0)], 10, 100), &facts(vec![]), 6).unwrap();
    let skipped = p.remove_skipped_transaction(1);
    assert!(skipped.removed.is_empty());
    assert_eq!(ids(&skipped.dependents), vec![2]);
    assert!(!p.spent_inputs.is_spent_input(a));
    assert!(!p.spent_inputs.is_spent_tx(1));
    assert!(!p.extracted_outputs.contains(1, 0));
    assert_eq!(p.tx_count(), 0);
}

#[test]
fn spent_input_is_refused() {
    let mut p = pool(10);
    let a = coin(1000, 0);
    p.insert(tx(1, vec![a], 10, 100), &facts(vec![a]), 5).unwrap();
    p.extract_transactions_for_block(Constraints {
        max_gas: 1000,
        maximum_txs: 10,
        maximum_block_size: 10_000,
    });
    let again = p.insert(tx(1, vec![a], 10, 100), &facts(vec![a]), 6);
    assert_eq!(again.err(), Some(Error::InputValidation(InputValidationError::DuplicateTxId(1))));
    let other = p.insert(tx(5, vec![a], 10, 100), &facts(vec![a]), 6);
    assert_eq!(other.err(), Some(Error::InputValidation(InputValidationError::InputSpent(a))));
}

fn check_invariants(p: &Pool) {
    let entries = &p.storage.entries;
    let live: Vec<usize> = (0..entries.len()).filter(|i| entries[*i].is_some()).collect();
    let gas: u128 = live.iter().map(|i| entries[*i].as_ref().unwrap().transaction.max_gas as u128).sum();
    let bytes: u128 = live
        .iter()
        .map(|i| entries[*i].as_ref().unwrap().transaction.metered_bytes_size as u128)
        .sum();
    assert_eq!(p.current_gas, gas);
    assert_eq!(p.current_bytes_size, bytes);
    assert_eq!(p.tx_count(), live.len());
    assert_eq!(p.tx_id_to_storage_id.len(), live.len());
    for (id, index) in p.tx_id_to_storage_id.iter() {
        assert_eq!(entries[*index].as_ref().unwrap().transaction.id, *id);
    }
    for (_, index) in p.collision_manager.holders.iter() {
        assert!(entries[*index].is_some());
    }
    for index in p.selection_algorithm.executable.iter() {
        assert!(entries[*index].is_some());
    }
    for i in live.iter() {
        let entry = entries[*i].as_ref().unwrap();
        let subtree: Vec<&usize> = live
            .iter()
            .filter(|j| *j == i || entries[**j].as_ref().unwrap().dependencies.contains(i))
            .collect();
        let tx_of = |j: &usize| &entries[*j].as_ref().unwrap().transaction;
        let tip: u128 = subtree.iter().map(|j| tx_of(j).tip as u128).sum();
        let gas: u128 = subtree.iter().map(|j| tx_of(j).max_gas as u128).sum();
        let bytes: u128 = subtree.iter().map(|j| tx_of(j).metered_bytes_size as u128).sum();
        assert_eq!(entry.dependents_cumulative_tip, tip);
        assert_eq!(entry.dependents_cumulative_gas, gas);
        assert_eq!(entry.dependents_cumulative_bytes_size, bytes);
        assert_eq!(entry.number_dependents_in_chain, subtree.len() as u128);
        for d in entry.dependencies.iter() {
            assert!(entries[*d].is_some());
        }
        let executable = p.selection_algorithm.executable.contains(i);
        assert_eq!(executable, entry.dependencies.is_empty());
        assert_eq!(executable, !p.storage.has_dependencies(*i));
    }
    let mut listed = p.selection_algorithm.executable.clone();
    listed.sort();
    listed.dedup();
    assert_eq!(listed.len(), p.selection_algorithm.number_of_executable_transactions());
}

#[test]
fn invariants_hold_over_a_script() {
    let mut p = pool(6);
    let mut seed: u64 = 0x2545_f491_4f6c_dd1d;
    let mut next = move |bound: u64| {
        seed = seed.wrapping_mul(6364136223846793005).wrapping_add(1442695040888963407);
        (seed >> 33) % bound
    };
    let mut made: u64 = 0;
    let mut inserted = 0;
    let mut refused = 0;
    for _ in 0..400 {
        match next(10) {
            0..=5 => {
                made += 1;
                let mut inputs = vec![];
                let mut known = vec![];
                if made > 1 && next(2) == 0 {
                    inputs.push(coin(1 + next(made - 1), next(2) as u16));
                }
                if inputs.is_empty() || next(3) == 0 {
                    let external = coin(10_000 + next(12), 0);
                    inputs.push(external);
                    known.push(external);
                }
                let candidate = tx(made, inputs, 1 + next(50), 1 + next(200));
                match p.insert(candidate, &facts(known), made) {
                    Ok(ins) => {
                        inserted += 1;
                        assert!(p.contains(made));
                        for gone in ins.removed.iter() {
                            assert!(!p.contains(gone.id));
                        }
                    }
                    Err(_) => {
                        refused += 1;
                        assert!(!p.contains(made));
                    }
                }
            }
            6 => {
                let budget = Constraints {
                    max_gas: next(400),
                    maximum_txs: next(4) as u16,
                    maximum_block_size: 100 * next(4),
                };
                let out = p.extract_transactions_for_block(budget);
                assert!(out.iter().map(|t| t.max_gas).sum::<u64>() <= budget.max_gas);
                assert!(out.len() <= budget.maximum_txs as usize);
                assert!(out.iter().map(|t| t.metered_bytes_size).sum::<u64>() <= budget.maximum_block_size);
                for t in out.iter() {
                    assert!(!p.contains(t.id));
                }
            }
            7 => {
                let ids = vec![1 + next(made.max(1)), 1 + next(made.max(1))];
                p.process_committed_transactions(&ids);
                assert!(!p.contains(ids[0]) && !p.contains(ids[1]));
            }
            8 => {
                let id = 1 + next(made.max(1));
                p.remove_skipped_transaction(id);
                assert!(!p.contains(id));
                assert!(!p.spent_inputs.is_spent_tx(id));
            }
            _ => {
                let id = 1 + next(made.max(1));
                p.remove_transactions_and_dependents(&vec![id]);
                assert!(!p.contains(id));
            }
        }
        check_invariants(&p);
        let mut expected = p.iter_tx_ids();
        assert!(p.assert_integrity(&expected));
        expected.push(u64::MAX);
        assert!(!p.assert_integrity(&expected));
    }
    assert!(inserted > 20);
    assert!(refused > 0);
}

#[test]
fn without_utxo_validation_unknown_inputs_pass() {
    let mut p = Pool::new(Config { utxo_validation: false, pool_limits: limits(10), black_list: vec![] });
    let a = coin(1000, 0);
    assert!(p.insert(tx(1, vec![a, Input::Message { nonce: 4 }], 10, 100), &facts(vec![]), 5).is_ok());
    let missing_output = p.insert(tx(2, vec![coin(1, 9)], 10, 100), &facts(vec![]), 5);
    assert_eq!(
        missing_output.err(),
        Some(Error::InputValidation(InputValidationError::UnknownInput(coin(1, 9))))
    );
}

#[test]
fn contract_inputs_are_exclusive_but_never_spent() {
    let mut p = pool(10);
    let c = Input::Contract { contract_id: 3 };
    p.insert(tx(1, vec![c], 10, 100), &facts(vec![c]), 5).unwrap();
    let weaker = p.insert(tx(2, vec![c], 5, 100), &facts(vec![c]), 5);
    assert!(matches!(weaker, Err(Error::Collided(_))));
    p.extract_transactions_for_block(Constraints {
        max_gas: 1000,
        maximum_txs: 10,
        maximum_block_size: 10_000,
    });
    assert!(!p.spent_inputs.is_spent_input(c));
    assert!(p.insert(tx(3, vec![c], 5, 100), &facts(vec![c]), 6).is_ok());
}

#[test]
fn can_insert_transaction_plans_without_changing() {
    let mut p = pool(1);
    let a = coin(1000, 0);
    let b = coin(1001, 0);
    p.insert(tx(1, vec![a], 10, 100), &facts(vec![a]), 5).unwrap();
    let plan = p.can_insert_transaction(tx(2, vec![b], 20, 100), &facts(vec![b])).unwrap();
    assert_eq!(plan.transactions_to_remove, vec![0]);
    assert!(plan.collisions.is_empty());
    assert!(plan.checked_transaction.all_dependencies.is_empty());
    assert_eq!(plan.checked_transaction.tx.id, 2);
    assert_eq!(p.tx_count(), 1);
    assert!(p.contains(1));
    let found = p.find_free_space(
        fuel_node::txpool::admission::NotEnoughSpace { gas_left: 0, bytes_left: 0, txs_left: 2 },
        &tx(2, vec![b], 10, 100),
    );
    assert_eq!(found, Ok(vec![0]));
}
