use fuel_node::clock::ManualClock;
use fuel_node::producer::{
    check_dry_run, da_step, dry_run_target, header_to_produce, new_header, next_block_time,
    predefined_components, previous_block_info, produce_components, produces_on,
    select_new_da_height, window_block_time, BlockTransaction, DaSelection, DryRunOutcome, Error,
    LatestView, PredefinedBlock, PreviousBlockInfo, ProductionLock, RelayerBlockInfo, Trigger,
    Wakeup,
};

fn view(latest: Option<u32>, previous_da: Option<u64>) -> LatestView {
    LatestView {
        latest_height: latest,
        previous_block: previous_da.map(|da_height| PreviousBlockInfo { prev_root: [7; 32], da_height }),
        consensus_parameters_version: 3,
        state_transition_bytecode_version: 4,
    }
}

fn info(gas_cost: u64, tx_count: u64) -> RelayerBlockInfo {
    RelayerBlockInfo { gas_cost, tx_count }
}

#[test]
fn da_height_selection_under_limits() {
    let mut infos = vec![info(10, 1); 5];
    infos.push(info(1_000_000, 1));
    infos.extend(vec![info(10, 1); 4]);
    assert_eq!(select_new_da_height(1000, 10, u16::MAX - 1, 20, &infos), Ok(15));
}

#[test]
fn da_height_follows_the_bridge_to_the_end() {
    let infos = vec![info(10, 1); 10];
    assert_eq!(select_new_da_height(1000, 10, u16::MAX - 1, 20, &infos), Ok(20));
    assert_eq!(select_new_da_height(100, 10, u16::MAX - 1, 20, &infos), Ok(20));
    assert_eq!(select_new_da_height(99, 10, u16::MAX - 1, 20, &infos), Ok(19));
}

#[test]
fn da_height_stops_at_transaction_limit() {
    let infos = vec![info(1, 3), info(1, 3), info(1, 3)];
    assert_eq!(select_new_da_height(1000, 0, 6, 3, &infos), Ok(2));
    assert_eq!(select_new_da_height(1000, 0, 5, 3, &infos), Ok(1));
    let many = vec![info(1, 65_534), info(1, 1)];
    assert_eq!(select_new_da_height(1000, 0, u16::MAX - 1, 2, &many), Ok(1));
}

#[test]
fn da_height_unchanged_or_behind() {
    assert_eq!(select_new_da_height(1000, 10, 5, 10, &vec![]), Ok(10));
    assert_eq!(
        select_new_da_height(1000, 10, 5, 9, &vec![]),
        Err(Error::InvalidDaFinalizationState { best: 9, previous_block: 10 })
    );
}

#[test]
fn da_height_none_fits() {
    let infos = vec![info(5000, 1), info(1, 1)];
    assert_eq!(select_new_da_height(1000, 10, 5, 12, &infos), Err(Error::NoNewDaHeightFound));
}

#[test]
fn da_costs_saturate() {
    let infos = vec![info(u64::MAX, 1), info(u64::MAX, 1)];
    assert_eq!(select_new_da_height(u64::MAX, 1, 5, 3, &infos), Ok(3));
    let start = DaSelection { new_best: 1, total_cost: u64::MAX - 1, total_transactions: 0 };
    assert_eq!(
        da_step(start, 2, info(5, 2), u64::MAX, 5),
        Some(DaSelection { new_best: 2, total_cost: u64::MAX, total_transactions: 2 })
    );
    assert_eq!(da_step(start, 2, info(5, 6), u64::MAX, 5), None);
}

#[test]
fn header_for_the_next_height() {
    let v = view(Some(5), Some(40));
    let header = header_to_produce(6, 1234, 44, &v).unwrap();
    assert_eq!(header.height, 6);
    assert_eq!(header.time, 1234);
    assert_eq!(header.da_height, 44);
    assert_eq!(header.prev_root, [7; 32]);
    assert_eq!(header.consensus_parameters_version, 3);
    assert_eq!(header.state_transition_bytecode_version, 4);
    let plain = new_header(6, 1234, &v).unwrap();
    assert_eq!(plain.da_height, 40);
}

#[test]
fn header_errors() {
    assert_eq!(header_to_produce(1, 0, 0, &view(None, None)).err(), Some(Error::NoGenesisBlock));
    assert_eq!(
        header_to_produce(0, 0, 0, &view(Some(5), None)).err(),
        Some(Error::BlockHeightShouldBeHigherThanPrevious { height: 0, previous_block: 5 })
    );
    assert_eq!(
        header_to_produce(5, 0, 0, &view(Some(5), Some(1))).err(),
        Some(Error::BlockHeightShouldBeHigherThanPrevious { height: 5, previous_block: 5 })
    );
    assert_eq!(header_to_produce(7, 0, 0, &view(Some(5), Some(1))).err(), Some(Error::MissingBlock(6)));
    assert_eq!(header_to_produce(6, 0, 0, &view(Some(5), None)).err(), Some(Error::MissingBlock(5)));
    assert_eq!(previous_block_info(6, &view(Some(5), Some(9))).unwrap().da_height, 9);
}

#[test]
fn components_from_the_pool() {
    let v = view(Some(5), Some(40));
    let source = vec![BlockTransaction::Other(1), BlockTransaction::Other(2)];
    let c = produce_components(6, 99, &v, 41, 17, None, source.clone()).unwrap();
    assert_eq!(c.header_to_produce.height, 6);
    assert_eq!(c.header_to_produce.da_height, 41);
    assert_eq!(c.gas_price, 17);
    assert_eq!(c.coinbase_recipient, 0);
    assert_eq!(c.transactions_source, source);
    let d = produce_components(6, 99, &v, 41, 17, Some(8), vec![]).unwrap();
    assert_eq!(d.coinbase_recipient, 8);
    assert_eq!(
        produce_components(9, 99, &v, 41, 17, None, vec![]).err(),
        Some(Error::MissingBlock(8))
    );
}

#[test]
fn predefined_block_gives_up_its_mint() {
    let v = view(Some(5), Some(40));
    let block = PredefinedBlock {
        height: 6,
        time: 77,
        da_height: 3,
        transactions: vec![
            BlockTransaction::Other(1),
            BlockTransaction::Mint { gas_price: 12, coinbase_recipient: 34 },
        ],
    };
    let c = predefined_components(block, &v).unwrap();
    assert_eq!(c.header_to_produce.height, 6);
    assert_eq!(c.header_to_produce.time, 77);
    assert_eq!(c.header_to_produce.da_height, 3);
    assert_eq!(c.gas_price, 12);
    assert_eq!(c.coinbase_recipient, 34);
    assert_eq!(c.transactions_source, vec![BlockTransaction::Other(1)]);
}

#[test]
fn predefined_block_without_mint() {
    let v = view(Some(5), Some(40));
    let no_mint = PredefinedBlock {
        height: 6,
        time: 77,
        da_height: 3,
        transactions: vec![BlockTransaction::Other(1)],
    };
    assert_eq!(predefined_components(no_mint, &v).err(), Some(Error::MissingMint));
    let empty = PredefinedBlock { height: 6, time: 77, da_height: 3, transactions: vec![] };
    assert_eq!(predefined_components(empty, &v).err(), Some(Error::MissingMint));
    let old = PredefinedBlock { height: 5, time: 77, da_height: 3, transactions: vec![] };
    assert_eq!(
        predefined_components(old, &v).err(),
        Some(Error::BlockHeightShouldBeHigherThanPrevious { height: 5, previous_block: 5 })
    );
}

#[test]
fn lock_is_held_by_one() {
    let mut lock = ProductionLock::new();
    assert_eq!(lock.try_lock(), Ok(()));
    assert_eq!(lock.try_lock(), Err(Error::Busy));
    assert_eq!(lock.try_lock(), Err(Error::Busy));
    lock.unlock();
    assert_eq!(lock.try_lock(), Ok(()));
}

#[test]
fn triggers_and_wakeups() {
    assert!(!produces_on(Trigger::Never, Wakeup::NewTransactions));
    assert!(!produces_on(Trigger::Never, Wakeup::Timer));
    assert!(produces_on(Trigger::Instant, Wakeup::NewTransactions));
    assert!(!produces_on(Trigger::Instant, Wakeup::Timer));
    assert!(produces_on(Trigger::Interval { block_time: 10 }, Wakeup::Timer));
    assert!(!produces_on(Trigger::Interval { block_time: 10 }, Wakeup::NewTransactions));
    assert!(produces_on(Trigger::Open { period: 10 }, Wakeup::Timer));
    assert!(!produces_on(Trigger::Open { period: 10 }, Wakeup::NewTransactions));
}

#[test]
fn interval_with_frozen_clock() {
    let t0: i64 = 1_000;
    let clock = ManualClock::new(t0);
    let first = next_block_time(t0, 10, clock.now());
    let second = next_block_time(first, 10, clock.now());
    let third = next_block_time(second, 10, clock.now());
    assert_eq!((first, second, third), (t0 + 10, t0 + 20, t0 + 30));
}

#[test]
fn interval_catches_up_when_production_lags() {
    let t0: i64 = 1_000;
    let mut clock = ManualClock::new(t0);
    let first = next_block_time(t0, 10, clock.now());
    assert_eq!(first, t0 + 10);
    clock.advance_time(25);
    let second = next_block_time(first, 10, clock.now());
    assert_eq!(second, t0 + 25);
    let third = next_block_time(second, 10, clock.now());
    assert_eq!(third, t0 + 35);
}

#[test]
fn interval_ignores_a_rewound_clock() {
    let t0: i64 = 1_000;
    let mut clock = ManualClock::new(t0 + 10);
    let first = next_block_time(t0, 10, clock.now());
    assert_eq!(first, t0 + 10);
    clock.rewind_time(10);
    assert_eq!(clock.now(), t0);
    let second = next_block_time(first, 10, clock.now());
    assert_eq!(second, t0 + 20);
    assert_eq!(next_block_time(-30, 10, -100), -20);
}

#[test]
fn open_window_ends_on_time() {
    let t0: i64 = 5_000;
    let first = window_block_time(t0, 10);
    let second = window_block_time(first, 10);
    assert_eq!(first, t0 + 10);
    assert_eq!(second, t0 + 20);
}

#[test]
fn dry_run_defaults() {
    assert_eq!(dry_run_target(None, None, Some(7), Some(500)), (8, 500));
    assert_eq!(dry_run_target(Some(3), Some(9), Some(7), Some(500)), (3, 9));
    assert_eq!(dry_run_target(None, None, None, None), (1, 0));
    let good = vec![
        DryRunOutcome { is_script: true, receipts: 2 },
        DryRunOutcome { is_script: false, receipts: 0 },
    ];
    assert_eq!(check_dry_run(&good), Ok(()));
    let bad = vec![
        DryRunOutcome { is_script: true, receipts: 2 },
        DryRunOutcome { is_script: true, receipts: 0 },
    ];
    assert_eq!(check_dry_run(&bad), Err(Error::MissingReceipts));
    assert_eq!(check_dry_run(&vec![]), Ok(()));
}
