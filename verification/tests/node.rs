use fuel_node::codecs::Encoder;
use fuel_node::coins::{
    coin, coin_of_key, into_api_result, owned_coins_ids, owner_coin_id_key, StorageError, UtxoId,
};
use fuel_node::config::{Config, DaCompressionConfig, DaCompressionMode, DbType, GasPriceConfig};
use fuel_node::costs::{
    default_costs, default_query_costs, initialize_query_costs, query_costs, CostsError,
    QueryCosts, BALANCES_QUERY_COST_WITHOUT_INDEXATION,
};
use fuel_node::importer::{after_commit_attempt, store_new_block, CommitAction, COMMIT_RETRY_DELAY};
use fuel_node::schema::{BlobExistsQuery, BlobIdFragment};

#[test]
fn default_costs_table() {
    let costs = default_costs();
    assert_eq!(costs.balance_query, 0);
    assert_eq!(costs.coins_to_spend, 40001);
    assert_eq!(costs.dry_run, 12000);
    assert_eq!(costs.assemble_tx, 76_000);
    assert_eq!(costs.storage_read, 40);
    assert_eq!(costs.tx_get, 50);
    assert_eq!(costs.tx_raw_payload, 150);
    assert_eq!(costs.block_transactions, 1500);
    assert_eq!(costs.storage_iterator, 100);
    assert_eq!(costs.bytecode_read, 8000);
    assert_eq!(costs.state_transition_bytecode_read, 76_000);
    assert_eq!(costs.da_compressed_block_read, 4000);
    assert_eq!(default_query_costs(true), costs);
    let without = default_query_costs(false);
    assert_eq!(without.balance_query, BALANCES_QUERY_COST_WITHOUT_INDEXATION);
    assert_eq!(without.balance_query, 40001);
    assert_eq!(without.coins_to_spend, costs.coins_to_spend);
}

#[test]
fn costs_are_configured_once() {
    let mut cell = QueryCosts::new(false);
    assert_eq!(query_costs(&cell), default_costs());
    let mut first = default_costs();
    first.tx_get = 1;
    let mut second = default_costs();
    second.tx_get = 2;
    assert_eq!(initialize_query_costs(&mut cell, first, true), Ok(()));
    assert_eq!(query_costs(&cell).tx_get, 1);
    assert_eq!(initialize_query_costs(&mut cell, second, true), Ok(()));
    assert_eq!(query_costs(&cell).tx_get, 1);
}

#[test]
fn costs_defaults_only() {
    let mut cell = QueryCosts::new(true);
    let mut other = default_costs();
    other.tx_get = 1;
    assert_eq!(initialize_query_costs(&mut cell, other, true), Err(CostsError::NonDefaultCosts));
    assert_eq!(cell.configured, None);
    assert_eq!(
        initialize_query_costs(&mut cell, default_costs(), false),
        Err(CostsError::NonDefaultCosts)
    );
    assert_eq!(initialize_query_costs(&mut cell, default_query_costs(false), false), Ok(()));
    assert_eq!(query_costs(&cell).balance_query, 40001);
}

#[test]
fn config_is_made_consistent() {
    let local = Config::local_node();
    assert!(local.debug);
    assert!(local.historical_execution);
    assert!(!local.utxo_validation);
    assert_eq!(local.production_timeout, 20);
    assert_eq!(local.make_config_consistent(), local);
    let strict = Config { debug: false, ..local }.make_config_consistent();
    assert!(strict.utxo_validation);
    assert!(strict.txpool_utxo_validation);
    assert!(!strict.debug);
    let follows = Config { txpool_utxo_validation: true, ..local }.make_config_consistent();
    assert!(!follows.utxo_validation);
    assert!(!follows.txpool_utxo_validation);
    assert_eq!(local.require_historical_execution(), Ok(()));
    assert!(Config { historical_execution: false, ..local }.require_historical_execution().is_err());
}

#[test]
fn gas_price_of_a_local_node() {
    let config = GasPriceConfig::local_node();
    assert_eq!(config.starting_exec_gas_price, 0);
    assert_eq!(config.exec_gas_price_threshold_percent, 50);
    assert_eq!(config.da_gas_price_factor, 100);
    assert_eq!(config.max_da_gas_price, 1);
    assert_eq!(config.da_poll_interval, Some(1));
    assert_eq!(config.starting_recorded_height, None);
    assert!(!config.gas_price_metrics);
}

#[test]
fn db_type_names() {
    assert_eq!(DbType::InMemory.name(), "in-memory");
    assert_eq!(DbType::RocksDb.name(), "rocks-db");
}

#[test]
fn da_compression_settings() {
    assert_eq!(DaCompressionConfig::new(10, true, Some(0)), None);
    let config = DaCompressionConfig::new(10, true, Some(4)).unwrap();
    assert_eq!(config.starting_height, Some(4));
    assert_eq!(config.retention_duration, 10);
    assert!(DaCompressionConfig::new(10, false, None).is_some());
    assert_ne!(DaCompressionMode::Enabled(config), DaCompressionMode::Disabled);
}

#[test]
fn commit_is_retried_after_one_second() {
    assert_eq!(COMMIT_RETRY_DELAY, 1);
    assert_eq!(after_commit_attempt(false, false), CommitAction::RetryAfter(1));
    assert_eq!(after_commit_attempt(true, false), CommitAction::Announce);
    assert_eq!(after_commit_attempt(true, true), CommitAction::Announce);
    assert_eq!(after_commit_attempt(false, true), CommitAction::GiveUp);
    let mut announced = 0;
    let mut waited = 0;
    for committed in [false, true] {
        match after_commit_attempt(committed, false) {
            CommitAction::Announce => announced += 1,
            CommitAction::RetryAfter(seconds) => waited += seconds,
            CommitAction::GiveUp => unreachable!(),
        }
    }
    assert_eq!((announced, waited), (1, 1));
}

#[test]
fn new_block_has_no_replaced_write() {
    assert!(store_new_block(&vec![false, false, false]));
    assert!(!store_new_block(&vec![false, true, false]));
    assert!(!store_new_block(&vec![true]));
    assert!(store_new_block(&vec![]));
}

#[test]
fn bytes_encode_to_themselves() {
    assert_eq!(vec![1u8, 2, 3].into_bytes(), vec![1u8, 2, 3]);
}

#[test]
fn blob_exists_query() {
    assert!(BlobExistsQuery { blob: Some(BlobIdFragment { id: [1; 32] }) }.is_found());
    assert!(!BlobExistsQuery { blob: None }.is_found());
}

#[test]
fn coin_keys_round_trip() {
    let owner: Vec<u8> = (0u8..32).collect();
    let tx_id: Vec<u8> = (100u8..132).collect();
    let utxo = UtxoId { tx_id: tx_id.clone(), output_index: 0x1234 };
    let key = owner_coin_id_key(&owner, &utxo);
    assert_eq!(key.len(), 66);
    assert_eq!(&key[..32], &owner[..]);
    assert_eq!(&key[32..64], &tx_id[..]);
    assert_eq!(&key[64..], &[0x12, 0x34]);
    assert_eq!(coin_of_key(&key), utxo);
    let other = owner_coin_id_key(&owner, &UtxoId { tx_id: tx_id.clone(), output_index: 65_535 });
    let coins = owned_coins_ids(&vec![key, other]);
    assert_eq!(coins[0].output_index, 0x1234);
    assert_eq!(coins[1].output_index, 65_535);
    assert_eq!(coins[1].tx_id, tx_id);
    assert_eq!(coin(Some(5u8)), Ok(5));
    assert_eq!(coin::<u8>(None), Err(StorageError::NotFound));
    assert_eq!(into_api_result(Ok(3u8)), Ok(Some(3)));
    assert_eq!(into_api_result::<u8>(Err(StorageError::NotFound)), Ok(None));
    assert_eq!(into_api_result::<u8>(Err(StorageError::Other(7))), Err(StorageError::Other(7)));
}
