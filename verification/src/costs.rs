//! Cost table that bounds the complexity of API queries.
//!
//! The table is configured at most once and read-only afterwards. It is held
//! in a [`QueryCosts`] value that the caller threads through its context.

use vstd::prelude::*;

verus! {

/// Cost of each kind of query, in complexity units.
#[derive(Clone, Copy, Debug, PartialEq, Eq, Structural)]
pub struct Costs {
    pub balance_query: usize,
    pub coins_to_spend: usize,
    pub get_peers: usize,
    pub estimate_predicates: usize,
    pub assemble_tx: usize,
    pub dry_run: usize,
    pub storage_read_replay: usize,
    pub submit: usize,
    pub submit_and_await: usize,
    pub status_change: usize,
    pub storage_read: usize,
    pub tx_get: usize,
    pub tx_status_read: usize,
    pub tx_raw_payload: usize,
    pub block_header: usize,
    pub block_transactions: usize,
    pub block_transactions_ids: usize,
    pub storage_iterator: usize,
    pub bytecode_read: usize,
    pub state_transition_bytecode_read: usize,
    pub da_compressed_block_read: usize,
}

pub const BALANCES_QUERY_COST_WITH_INDEXATION: usize = 0;

pub const BALANCES_QUERY_COST_WITHOUT_INDEXATION: usize = 40001;

/// The cost table used when nothing else was configured.
pub open spec fn spec_default_costs() -> Costs {
    Costs {
        balance_query: BALANCES_QUERY_COST_WITH_INDEXATION,
        coins_to_spend: 40001,
        get_peers: 40001,
        estimate_predicates: 40001,
        dry_run: 12000,
        assemble_tx: 76000,
        storage_read_replay: 40001,
        submit: 40001,
        submit_and_await: 40001,
        status_change: 40001,
        storage_read: 40,
        tx_get: 50,
        tx_status_read: 50,
        tx_raw_payload: 150,
        block_header: 150,
        block_transactions: 1500,
        block_transactions_ids: 50,
        storage_iterator: 100,
        bytecode_read: 8000,
        state_transition_bytecode_read: 76000,
        da_compressed_block_read: 4000,
    }
}

/// The default table, adjusted for whether balances are indexed: without the
/// index a balance query is as expensive as the other heavy queries.
pub open spec fn spec_default_query_costs(balances_indexation_enabled: bool) -> Costs {
    if balances_indexation_enabled {
        spec_default_costs()
    } else {
        Costs { balance_query: BALANCES_QUERY_COST_WITHOUT_INDEXATION, ..spec_default_costs() }
    }
}

pub fn default_costs() -> (costs: Costs)
    ensures
        costs == spec_default_costs(),
{
    Costs {
        balance_query: BALANCES_QUERY_COST_WITH_INDEXATION,
        coins_to_spend: 40001,
        get_peers: 40001,
        estimate_predicates: 40001,
        dry_run: 12000,
        assemble_tx: 76000,
        storage_read_replay: 40001,
        submit: 40001,
        submit_and_await: 40001,
        status_change: 40001,
        storage_read: 40,
        tx_get: 50,
        tx_status_read: 50,
        tx_raw_payload: 150,
        block_header: 150,
        block_transactions: 1500,
        block_transactions_ids: 50,
        storage_iterator: 100,
        bytecode_read: 8000,
        state_transition_bytecode_read: 76000,
        da_compressed_block_read: 4000,
    }
}

pub fn default_query_costs(balances_indexation_enabled: bool) -> (costs: Costs)
    ensures
        costs == spec_default_query_costs(balances_indexation_enabled),
{
    let mut cost = default_costs();
    if !balances_indexation_enabled {
        cost.balance_query = BALANCES_QUERY_COST_WITHOUT_INDEXATION;
    }
    cost
}

/// Why a cost table was not accepted.
#[derive(Clone, Copy, Debug, PartialEq, Eq, Structural)]
pub enum CostsError {
    /// Only the default table may be configured in this mode.
    NonDefaultCosts,
}

/// Holder of the configured cost table: empty until the first successful
/// initialisation, unchanged by every later one.
#[derive(Clone, Copy, Debug)]
pub struct QueryCosts {
    pub configured: Option<Costs>,
    /// When set, only the default table is accepted.
    pub defaults_only: bool,
}

impl QueryCosts {
    pub fn new(defaults_only: bool) -> (cell: QueryCosts)
        ensures
            cell.configured.is_none(),
            cell.defaults_only == defaults_only,
    {
        QueryCosts { configured: None, defaults_only }
    }

    /// The table that queries are charged by.
    pub open spec fn effective(&self) -> Costs {
        match self.configured {
            Some(costs) => costs,
            None => spec_default_costs(),
        }
    }
}

/// The configured table, or the default one while none is configured.
pub fn query_costs(cell: &QueryCosts) -> (costs: Costs)
    ensures
        costs == cell.effective(),
{
    match cell.configured {
        Some(costs) => costs,
        None => default_costs(),
    }
}

/// Configures the table. The first accepted table stays for good; a later
/// call leaves it as it is and still succeeds. Where only defaults are
/// accepted, any other table is refused and nothing changes.
pub fn initialize_query_costs(
    cell: &mut QueryCosts,
    costs: Costs,
    balances_indexation_enabled: bool,
) -> (res: Result<(), CostsError>)
    ensures
        final(cell).defaults_only == old(cell).defaults_only,
        res.is_err() <==> (old(cell).defaults_only && costs != spec_default_query_costs(
            balances_indexation_enabled,
        )),
        res.is_err() ==> res == Err::<(), CostsError>(CostsError::NonDefaultCosts) && *final(cell)
            == *old(cell),
        res.is_ok() ==> final(cell).configured == Some(
            match old(cell).configured {
                Some(first) => first,
                None => costs,
            },
        ),
{
    if cell.defaults_only && costs != default_query_costs(balances_indexation_enabled) {
        return Err(CostsError::NonDefaultCosts);
    }
    if cell.configured.is_none() {
        cell.configured = Some(costs);
    }
    Ok(())
}

} // verus!
