//! The decisions of the block producer: who may produce, the header of the
//! next block, and how far the block follows the data-availability layer.

use vstd::prelude::*;

verus! {

pub type BlockHeight = u32;

pub type DaBlockHeight = u64;

pub type Bytes32 = [u8; 32];

/// Why no block is produced.
#[derive(Clone, Copy, Debug, PartialEq, Eq, Structural)]
pub enum Error {
    /// Genesis block is absent.
    NoGenesisBlock,
    /// The block height should be higher than the previous block height.
    BlockHeightShouldBeHigherThanPrevious { height: BlockHeight, previous_block: BlockHeight },
    /// The previous block does not exist.
    MissingBlock(BlockHeight),
    /// The best finalized height of the data-availability layer is behind
    /// that of the previous block.
    InvalidDaFinalizationState { best: DaBlockHeight, previous_block: DaBlockHeight },
    /// No height of the data-availability layer beyond the previous one
    /// fits into a block.
    NoNewDaHeightFound,
    /// The last transaction of a predefined block is not a mint.
    MissingMint,
    /// A block is being produced already.
    Busy,
    /// A dry run gave a script without receipts.
    MissingReceipts,
}

/// The part of a header that is fixed before the block is executed.
#[derive(Clone, Copy, Debug)]
pub struct PartialBlockHeader {
    pub height: BlockHeight,
    /// Seconds since the epoch.
    pub time: i64,
    pub prev_root: Bytes32,
    pub da_height: DaBlockHeight,
    pub consensus_parameters_version: u32,
    pub state_transition_bytecode_version: u32,
}

/// What the producer reads of the previous block.
#[derive(Clone, Copy, Debug)]
pub struct PreviousBlockInfo {
    pub prev_root: Bytes32,
    pub da_height: DaBlockHeight,
}

/// What the producer reads of the chain before it builds a header for the
/// height `h`: the latest height, the block at `h - 1` if the chain holds
/// one, and the versions in force.
#[derive(Clone, Copy, Debug)]
pub struct LatestView {
    pub latest_height: Option<BlockHeight>,
    pub previous_block: Option<PreviousBlockInfo>,
    pub consensus_parameters_version: u32,
    pub state_transition_bytecode_version: u32,
}

/// The guard against two productions at once.
pub struct ProductionLock {
    pub held: bool,
}

impl ProductionLock {
    pub fn new() -> (lock: ProductionLock)
        ensures
            !lock.held,
    {
        ProductionLock { held: false }
    }

    /// Takes the lock if it is free, and fails at once if it is held.
    pub fn try_lock(&mut self) -> (res: Result<(), Error>)
        ensures
            final(self).held,
            old(self).held ==> res == Err::<(), Error>(Error::Busy),
            !old(self).held ==> res.is_ok(),
    {
        if self.held {
            Err(Error::Busy)
        } else {
            self.held = true;
            Ok(())
        }
    }

    /// Gives the lock back.
    pub fn unlock(&mut self)
        ensures
            !final(self).held,
    {
        self.held = false;
    }
}

/// What `previous_block_info` answers for the height `height`.
pub open spec fn spec_previous_block_info(height: BlockHeight, view: LatestView) -> Result<
    PreviousBlockInfo,
    Error,
> {
    if view.latest_height is None {
        Err(Error::NoGenesisBlock)
    } else if height == 0 {
        Err(
            Error::BlockHeightShouldBeHigherThanPrevious {
                height: 0,
                previous_block: view.latest_height->Some_0,
            },
        )
    } else if height - 1 > view.latest_height->Some_0 || view.previous_block is None {
        Err(Error::MissingBlock((height - 1) as u32))
    } else {
        Ok(view.previous_block->Some_0)
    }
}

/// The root and the data-availability height that the block at `height`
/// inherits from the block before it. A chain without genesis, the height
/// zero and a missing block before `height` are errors.
pub fn previous_block_info(height: BlockHeight, view: &LatestView) -> (res: Result<
    PreviousBlockInfo,
    Error,
>)
    ensures
        res == spec_previous_block_info(height, *view),
{
    let latest_height = match view.latest_height {
        None => {
            return Err(Error::NoGenesisBlock);
        },
        Some(latest) => latest,
    };
    if height == 0 {
        return Err(
            Error::BlockHeightShouldBeHigherThanPrevious { height: 0, previous_block: latest_height },
        );
    }
    let prev_height: u32 = height - 1;
    if prev_height > latest_height {
        return Err(Error::MissingBlock(prev_height));
    }
    match view.previous_block {
        None => Err(Error::MissingBlock(prev_height)),
        Some(info) => Ok(info),
    }
}

/// What `new_header` answers.
pub open spec fn spec_new_header(height: BlockHeight, block_time: i64, view: LatestView) -> Result<
    PartialBlockHeader,
    Error,
> {
    match spec_previous_block_info(height, view) {
        Err(e) => Err(e),
        Ok(info) => Ok(
            PartialBlockHeader {
                height,
                time: block_time,
                prev_root: info.prev_root,
                da_height: info.da_height,
                consensus_parameters_version: view.consensus_parameters_version,
                state_transition_bytecode_version: view.state_transition_bytecode_version,
            },
        ),
    }
}

/// The header of the block at `height`, with the data-availability height
/// of the block before it.
pub fn new_header(height: BlockHeight, block_time: i64, view: &LatestView) -> (res: Result<
    PartialBlockHeader,
    Error,
>)
    ensures
        res == spec_new_header(height, block_time, *view),
{
    let info = match previous_block_info(height, view) {
        Err(e) => {
            return Err(e);
        },
        Ok(info) => info,
    };
    Ok(
        PartialBlockHeader {
            height,
            time: block_time,
            prev_root: info.prev_root,
            da_height: info.da_height,
            consensus_parameters_version: view.consensus_parameters_version,
            state_transition_bytecode_version: view.state_transition_bytecode_version,
        },
    )
}

/// The header of the block at `height` with the given data-availability
/// height.
pub fn new_header_with_da_height(
    height: BlockHeight,
    block_time: i64,
    da_height: DaBlockHeight,
    view: &LatestView,
) -> (res: Result<PartialBlockHeader, Error>)
    ensures
        res == match spec_new_header(height, block_time, *view) {
            Err(e) => Err(e),
            Ok(header) => Ok(PartialBlockHeader { da_height, ..header }),
        },
{
    match new_header(height, block_time, view) {
        Err(e) => Err(e),
        Ok(header) => {
            let mut header = header;
            header.da_height = da_height;
            Ok(header)
        },
    }
}

/// What the bridge reports of one block of the data-availability layer.
#[derive(Clone, Copy, Debug, PartialEq, Eq, Structural)]
pub struct RelayerBlockInfo {
    pub gas_cost: u64,
    pub tx_count: u64,
}

/// `a + b`, or `u64::MAX` where that is less.
pub open spec fn sat_add(a: u64, b: u64) -> u64 {
    if a + b > u64::MAX {
        u64::MAX
    } else {
        (a + b) as u64
    }
}

/// The gas of the first `k` of `infos`, summed without passing `u64::MAX`.
pub open spec fn cost_upto(infos: Seq<RelayerBlockInfo>, k: int) -> u64
    decreases k,
{
    if k <= 0 {
        0
    } else {
        sat_add(cost_upto(infos, k - 1), infos[k - 1].gas_cost)
    }
}

/// The transactions of the first `k` of `infos`, summed without passing
/// `u64::MAX`.
pub open spec fn txs_upto(infos: Seq<RelayerBlockInfo>, k: int) -> u64
    decreases k,
{
    if k <= 0 {
        0
    } else {
        sat_add(txs_upto(infos, k - 1), infos[k - 1].tx_count)
    }
}

/// Whether the first `k` of `infos` together stay within both limits.
pub open spec fn included(
    infos: Seq<RelayerBlockInfo>,
    k: int,
    gas_limit: u64,
    transactions_limit: u16,
) -> bool {
    cost_upto(infos, k) <= gas_limit && txs_upto(infos, k) <= transactions_limit
}

/// Whether `k` is how many of `infos` a block takes in: every beginning up
/// to `k` stays within the limits, and one more does not or does not exist.
pub open spec fn takes_in(
    infos: Seq<RelayerBlockInfo>,
    k: int,
    gas_limit: u64,
    transactions_limit: u16,
) -> bool {
    &&& 0 <= k <= infos.len()
    &&& forall|j: int| 1 <= j <= k ==> #[trigger] included(infos, j, gas_limit, transactions_limit)
    &&& (k == infos.len() || !included(infos, k + 1, gas_limit, transactions_limit))
}

/// Where the selection of a data-availability height stands.
#[derive(Clone, Copy, Debug, PartialEq, Eq, Structural)]
pub struct DaSelection {
    pub new_best: DaBlockHeight,
    pub total_cost: u64,
    pub total_transactions: u64,
}

/// Takes the block `height` of the data-availability layer into the
/// selection, unless that passes a limit.
pub fn da_step(
    state: DaSelection,
    height: DaBlockHeight,
    info: RelayerBlockInfo,
    gas_limit: u64,
    transactions_limit: u16,
) -> (next: Option<DaSelection>)
    ensures
        next == if sat_add(state.total_cost, info.gas_cost) > gas_limit || sat_add(
            state.total_transactions,
            info.tx_count,
        ) > transactions_limit {
            None
        } else {
            Some(
                DaSelection {
                    new_best: height,
                    total_cost: sat_add(state.total_cost, info.gas_cost),
                    total_transactions: sat_add(state.total_transactions, info.tx_count),
                },
            )
        },
{
    let total_cost: u64 = if state.total_cost > u64::MAX - info.gas_cost {
        u64::MAX
    } else {
        state.total_cost + info.gas_cost
    };
    let total_transactions: u64 = if state.total_transactions > u64::MAX - info.tx_count {
        u64::MAX
    } else {
        state.total_transactions + info.tx_count
    };
    if total_cost > gas_limit || total_transactions > transactions_limit as u64 {
        None
    } else {
        Some(DaSelection { new_best: height, total_cost, total_transactions })
    }
}

/// The data-availability height of the next block. `highest` is the height
/// that the bridge has finalized, and `infos` holds what it reports of the
/// blocks after `previous_da_height`, in their order. The block follows
/// the bridge as far as gas and transactions of the blocks taken in stay
/// within the limits.
pub fn select_new_da_height(
    gas_limit: u64,
    previous_da_height: DaBlockHeight,
    transactions_limit: u16,
    highest: DaBlockHeight,
    infos: &Vec<RelayerBlockInfo>,
) -> (res: Result<DaBlockHeight, Error>)
    requires
        highest > previous_da_height ==> infos@.len() == highest - previous_da_height,
    ensures
        highest < previous_da_height ==> res == Err::<DaBlockHeight, Error>(
            Error::InvalidDaFinalizationState { best: highest, previous_block: previous_da_height },
        ),
        highest == previous_da_height ==> res == Ok::<DaBlockHeight, Error>(highest),
        highest > previous_da_height ==> exists|k: int| #[trigger]
            takes_in(infos@, k, gas_limit, transactions_limit) && res == (if k == 0 {
                Err::<DaBlockHeight, Error>(Error::NoNewDaHeightFound)
            } else {
                Ok::<DaBlockHeight, Error>((previous_da_height + k) as u64)
            }),
        res is Ok ==> previous_da_height <= res->Ok_0 <= highest,
{
    if highest < previous_da_height {
        return Err(
            Error::InvalidDaFinalizationState { best: highest, previous_block: previous_da_height },
        );
    }
    if highest == previous_da_height {
        return Ok(highest);
    }
    let mut state = DaSelection {
        new_best: previous_da_height,
        total_cost: 0,
        total_transactions: 0,
    };
    let mut k: usize = 0;
    let mut going: bool = true;
    while going && k < infos.len()
        invariant
            k <= infos@.len(),
            infos@.len() == highest - previous_da_height,
            state.new_best == previous_da_height + k,
            state.total_cost == cost_upto(infos@, k as int),
            state.total_transactions == txs_upto(infos@, k as int),
            forall|j: int|
                1 <= j <= k ==> #[trigger] included(infos@, j, gas_limit, transactions_limit),
            !going ==> k < infos@.len() && !included(
                infos@,
                k + 1,
                gas_limit,
                transactions_limit,
            ),
        decreases infos@.len() - k + (if going { 1int } else { 0int }),
    {
        let height: u64 = previous_da_height + (k as u64) + 1;
        match da_step(state, height, infos[k], gas_limit, transactions_limit) {
            None => {
                going = false;
            },
            Some(next) => {
                state = next;
                k += 1;
            },
        }
    }
    proof {
        assert(takes_in(infos@, k as int, gas_limit, transactions_limit));
    }
    if state.new_best == previous_da_height {
        Err(Error::NoNewDaHeightFound)
    } else {
        Ok(state.new_best)
    }
}

/// The timing policy of the producer.
#[derive(Clone, Copy, Debug, PartialEq, Eq, Structural)]
pub enum Trigger {
    /// No block is ever produced.
    Never,
    /// A block is produced as soon as the pool announces a transaction.
    Instant,
    /// A block is produced once per `block_time` seconds, whatever the pool
    /// holds.
    Interval { block_time: u64 },
    /// A block is produced at the end of every window of `period` seconds.
    Open { period: u64 },
}

/// What wakes the producer.
#[derive(Clone, Copy, Debug, PartialEq, Eq, Structural)]
pub enum Wakeup {
    /// The pool announced new transactions.
    NewTransactions,
    /// The timer of the trigger ran out.
    Timer,
}

/// Whether the producer builds a block when `wakeup` wakes it. However many
/// announcements have gathered, they wake it once.
pub fn produces_on(trigger: Trigger, wakeup: Wakeup) -> (produce: bool)
    ensures
        produce == match (trigger, wakeup) {
            (Trigger::Instant, Wakeup::NewTransactions) => true,
            (Trigger::Interval { .. }, Wakeup::Timer) => true,
            (Trigger::Open { .. }, Wakeup::Timer) => true,
            _ => false,
        },
{
    match (trigger, wakeup) {
        (Trigger::Instant, Wakeup::NewTransactions) => true,
        (Trigger::Interval { .. }, Wakeup::Timer) => true,
        (Trigger::Open { .. }, Wakeup::Timer) => true,
        _ => false,
    }
}

/// The later of `last_block_time + block_time` and `now`.
pub open spec fn spec_next_block_time(last_block_time: i64, block_time: u64, now: i64) -> int {
    if last_block_time + block_time >= now {
        last_block_time + block_time
    } else {
        now as int
    }
}

/// The timestamp of the next block under the interval trigger: one
/// `block_time` after the last block, or the time of the clock where that
/// is later.
pub fn next_block_time(last_block_time: i64, block_time: u64, now: i64) -> (time: i64)
    requires
        last_block_time + block_time <= i64::MAX,
    ensures
        time == spec_next_block_time(last_block_time, block_time, now),
        time >= now,
        time >= last_block_time,
{
    let spaced: i64 = (last_block_time as i128 + block_time as i128) as i64;
    if spaced >= now {
        spaced
    } else {
        now
    }
}

/// The timestamp of the block of the window that starts at `window_start`
/// under the open trigger: the end of the window, whatever the clock says.
pub fn window_block_time(window_start: i64, period: u64) -> (time: i64)
    requires
        window_start + period <= i64::MAX,
    ensures
        time == window_start + period,
{
    (window_start as i128 + period as i128) as i64
}

/// A transaction of a block, as far as the producer reads it.
#[derive(Clone, Copy, Debug, PartialEq, Eq, Structural)]
pub enum BlockTransaction {
    /// The mint that ends a block.
    Mint { gas_price: u64, coinbase_recipient: u64 },
    /// Any other transaction, by its identifier.
    Other(u64),
}

/// What the executor gets to build a block from.
#[derive(Debug)]
pub struct Components {
    pub header_to_produce: PartialBlockHeader,
    pub transactions_source: Vec<BlockTransaction>,
    pub coinbase_recipient: u64,
    pub gas_price: u64,
}

/// A block that is replayed as it was defined.
pub struct PredefinedBlock {
    pub height: BlockHeight,
    pub time: i64,
    pub da_height: DaBlockHeight,
    pub transactions: Vec<BlockTransaction>,
}

/// The header for `height` where `height` is the next height of the chain.
pub open spec fn spec_header_to_produce(
    height: BlockHeight,
    block_time: i64,
    da_height: DaBlockHeight,
    view: LatestView,
) -> Result<PartialBlockHeader, Error> {
    match spec_new_header(height, block_time, view) {
        Err(e) => Err(e),
        Ok(header) => if height <= view.latest_height->Some_0 {
            Err(
                Error::BlockHeightShouldBeHigherThanPrevious {
                    height,
                    previous_block: view.latest_height->Some_0,
                },
            )
        } else {
            Ok(PartialBlockHeader { da_height, ..header })
        },
    }
}

/// The header of the next block: `height` has to be the height after the
/// latest one.
pub fn header_to_produce(
    height: BlockHeight,
    block_time: i64,
    da_height: DaBlockHeight,
    view: &LatestView,
) -> (res: Result<PartialBlockHeader, Error>)
    ensures
        res == spec_header_to_produce(height, block_time, da_height, *view),
        res is Ok ==> (res->Ok_0).height == view.latest_height->Some_0 + 1,
{
    let header = match new_header_with_da_height(height, block_time, da_height, view) {
        Err(e) => {
            return Err(e);
        },
        Ok(header) => header,
    };
    let latest_height = match view.latest_height {
        None => {
            return Err(Error::NoGenesisBlock);
        },
        Some(latest) => latest,
    };
    if header.height <= latest_height {
        return Err(
            Error::BlockHeightShouldBeHigherThanPrevious { height, previous_block: latest_height },
        );
    }
    Ok(header)
}

/// What the executor gets for the next block from the pool: the header
/// follows the bridge to `new_da_height`, which `select_new_da_height` chose
/// from the height of the block before.
pub fn produce_components(
    height: BlockHeight,
    block_time: i64,
    view: &LatestView,
    new_da_height: DaBlockHeight,
    gas_price: u64,
    coinbase_recipient: Option<u64>,
    transactions_source: Vec<BlockTransaction>,
) -> (res: Result<Components, Error>)
    ensures
        res is Ok == spec_header_to_produce(height, block_time, new_da_height, *view) is Ok,
        res is Err ==> res->Err_0 == spec_header_to_produce(
            height,
            block_time,
            new_da_height,
            *view,
        )->Err_0,
        res is Ok ==> {
            let c = res->Ok_0;
            &&& c.header_to_produce == spec_header_to_produce(
                height,
                block_time,
                new_da_height,
                *view,
            )->Ok_0
            &&& c.header_to_produce.height == view.latest_height->Some_0 + 1
            &&& c.header_to_produce.da_height == new_da_height
            &&& c.gas_price == gas_price
            &&& c.coinbase_recipient == (match coinbase_recipient {
                Some(recipient) => recipient,
                None => 0,
            })
            &&& c.transactions_source == transactions_source
        },
{
    let header = match header_to_produce(height, block_time, new_da_height, view) {
        Err(e) => {
            return Err(e);
        },
        Ok(header) => header,
    };
    Ok(
        Components {
            header_to_produce: header,
            transactions_source,
            coinbase_recipient: match coinbase_recipient {
                Some(recipient) => recipient,
                None => 0,
            },
            gas_price,
        },
    )
}

/// What the executor gets to replay `block`: height, time and
/// data-availability height are those of the block; its last transaction,
/// which has to be a mint, gives gas price and recipient, and the
/// transactions before it are the source.
pub fn predefined_components(block: PredefinedBlock, view: &LatestView) -> (res: Result<
    Components,
    Error,
>)
    ensures
        spec_header_to_produce(block.height, block.time, block.da_height, *view) is Err ==> res
            is Err && res->Err_0 == spec_header_to_produce(
            block.height,
            block.time,
            block.da_height,
            *view,
        )->Err_0,
        spec_header_to_produce(block.height, block.time, block.da_height, *view) is Ok && (
        block.transactions@.len() == 0 || !(block.transactions@.last() is Mint)) ==> res is Err
            && res->Err_0 == Error::MissingMint,
        spec_header_to_produce(block.height, block.time, block.da_height, *view) is Ok
            && block.transactions@.len() > 0 && block.transactions@.last() is Mint ==> res is Ok && {
            let c = res->Ok_0;
            &&& c.header_to_produce == spec_header_to_produce(
                block.height,
                block.time,
                block.da_height,
                *view,
            )->Ok_0
            &&& c.header_to_produce.height == view.latest_height->Some_0 + 1
            &&& c.gas_price == block.transactions@.last()->Mint_gas_price
            &&& c.coinbase_recipient == block.transactions@.last()->Mint_coinbase_recipient
            &&& c.transactions_source@ == block.transactions@.drop_last()
        },
{
    let header = match header_to_produce(block.height, block.time, block.da_height, view) {
        Err(e) => {
            return Err(e);
        },
        Ok(header) => header,
    };
    let mut transactions_source = block.transactions;
    match transactions_source.pop() {
        Some(BlockTransaction::Mint { gas_price, coinbase_recipient }) => Ok(
            Components {
                header_to_produce: header,
                transactions_source,
                coinbase_recipient,
                gas_price,
            },
        ),
        _ => Err(Error::MissingMint),
    }
}

/// The height and the time that a dry run simulates: those asked for, else
/// the height after the latest block and the time of the latest block, or
/// the epoch where there is none.
pub fn dry_run_target(
    height: Option<BlockHeight>,
    time: Option<i64>,
    latest_height: Option<BlockHeight>,
    latest_block_time: Option<i64>,
) -> (target: (BlockHeight, i64))
    requires
        height is None && latest_height is Some ==> latest_height->Some_0 < u32::MAX,
    ensures
        target.0 == (match height {
            Some(h) => h,
            None => match latest_height {
                Some(latest) => (latest + 1) as u32,
                None => 1u32,
            },
        }),
        target.1 == (match time {
            Some(t) => t,
            None => match latest_block_time {
                Some(t) => t,
                None => 0i64,
            },
        }),
{
    let simulated_height: u32 = match height {
        Some(h) => h,
        None => match latest_height {
            Some(latest) => latest + 1,
            None => 1,
        },
    };
    let simulated_time: i64 = match time {
        Some(t) => t,
        None => match latest_block_time {
            Some(t) => t,
            None => 0,
        },
    };
    (simulated_height, simulated_time)
}

/// What a dry run gave for one transaction.
#[derive(Clone, Copy, Debug, PartialEq, Eq, Structural)]
pub struct DryRunOutcome {
    pub is_script: bool,
    pub receipts: usize,
}

/// A dry run is good unless a script came back without receipts.
pub fn check_dry_run(outcomes: &Vec<DryRunOutcome>) -> (res: Result<(), Error>)
    ensures
        res.is_err() == (exists|x: int|
            0 <= x < outcomes@.len() && (#[trigger] outcomes@[x]).is_script && outcomes@[x].receipts
                == 0),
        res.is_err() ==> res == Err::<(), Error>(Error::MissingReceipts),
{
    let mut x: usize = 0;
    while x < outcomes.len()
        invariant
            x <= outcomes.len(),
            forall|y: int|
                0 <= y < x ==> !((#[trigger] outcomes@[y]).is_script && outcomes@[y].receipts == 0),
        decreases outcomes.len() - x,
    {
        if outcomes[x].is_script && outcomes[x].receipts == 0 {
            return Err(Error::MissingReceipts);
        }
        x += 1;
    }
    Ok(())
}

/// A header that is built for a data-availability height which
/// `select_new_da_height` chose from that of the block before continues
/// the chain: its height is the one after the latest, and its
/// data-availability height is not behind that of the block before.
pub proof fn lemma_header_continues_chain(
    height: BlockHeight,
    block_time: i64,
    view: LatestView,
    new_da_height: DaBlockHeight,
    header: PartialBlockHeader,
)
    requires
        spec_header_to_produce(height, block_time, new_da_height, view) == Ok::<
            PartialBlockHeader,
            Error,
        >(header),
        view.previous_block is Some ==> new_da_height >= (view.previous_block->Some_0).da_height,
    ensures
        view.latest_height is Some,
        view.previous_block is Some,
        header.height == view.latest_height->Some_0 + 1,
        header.da_height >= (view.previous_block->Some_0).da_height,
        header.time == block_time,
        header.prev_root == (view.previous_block->Some_0).prev_root,
{
}

/// Under the interval trigger the timestamps of successive blocks never go
/// back, wherever the clock stands.
pub proof fn lemma_interval_time_monotone(last_block_time: i64, block_time: u64, now: i64)
    ensures
        spec_next_block_time(last_block_time, block_time, now) >= last_block_time,
        spec_next_block_time(last_block_time, block_time, now) >= now,
        now <= last_block_time + block_time ==> spec_next_block_time(
            last_block_time,
            block_time,
            now,
        ) == last_block_time + block_time,
{
}

} // verus!
