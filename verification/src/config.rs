//! Settings of a node that its services share.

use vstd::prelude::*;

verus! {

/// The kind of database behind the node.
#[derive(Clone, Copy, Debug, PartialEq, Eq, Structural)]
pub enum DbType {
    InMemory,
    RocksDb,
}

impl DbType {
    /// The name of the kind, as written on a command line.
    pub open spec fn spec_name(self) -> Seq<char> {
        match self {
            DbType::InMemory => "in-memory"@,
            DbType::RocksDb => "rocks-db"@,
        }
    }

    /// The name of the kind, as written on a command line.
    pub fn name(&self) -> (name: &'static str)
        ensures
            name@ == self.spec_name(),
    {
        match self {
            DbType::InMemory => "in-memory",
            DbType::RocksDb => "rocks-db",
        }
    }
}

/// How compressed blocks for the data-availability layer are kept.
#[derive(Clone, Copy, Debug, PartialEq, Eq, Structural)]
pub struct DaCompressionConfig {
    /// For how many seconds a compressed block is retained.
    pub retention_duration: u64,
    pub metrics: bool,
    /// The first height to compress, if it is not the next one. Never zero.
    pub starting_height: Option<u32>,
}

impl DaCompressionConfig {
    pub open spec fn wf(&self) -> bool {
        self.starting_height != Some(0u32)
    }

    /// A configuration, unless `starting_height` names the height zero.
    pub fn new(retention_duration: u64, metrics: bool, starting_height: Option<u32>) -> (config:
        Option<DaCompressionConfig>)
        ensures
            config.is_some() == (starting_height != Some(0u32)),
            config.is_some() ==> config.unwrap().wf() && config.unwrap() == (DaCompressionConfig {
                retention_duration,
                metrics,
                starting_height,
            }),
    {
        match starting_height {
            Some(height) => {
                if height == 0 {
                    return None;
                }
            },
            None => {},
        }
        Some(DaCompressionConfig { retention_duration, metrics, starting_height })
    }
}

#[derive(Clone, Copy, Debug, PartialEq, Eq, Structural)]
pub enum DaCompressionMode {
    Disabled,
    Enabled(DaCompressionConfig),
}

/// The settings that have to agree between the node and its pool.
#[derive(Clone, Copy, Debug, PartialEq, Eq, Structural)]
pub struct Config {
    /// When `true`, manual block production and the debugger are enabled,
    /// and `utxo_validation` may be `false`.
    pub debug: bool,
    /// When `true`, dry runs in the past and reads of historical state are
    /// enabled.
    pub historical_execution: bool,
    pub utxo_validation: bool,
    /// The `utxo_validation` that the transaction pool goes by.
    pub txpool_utxo_validation: bool,
    pub da_compression: DaCompressionMode,
    /// For how many seconds a block production may run.
    pub production_timeout: u64,
}

impl Config {
    /// Whether the settings agree: without `debug` inputs are validated,
    /// and the pool validates exactly when the node does.
    pub open spec fn consistent(&self) -> bool {
        (self.debug || self.utxo_validation) && self.txpool_utxo_validation
            == self.utxo_validation
    }

    /// The settings made to agree: `utxo_validation` is switched on where
    /// `debug` is off, and the pool follows the node. Nothing else changes.
    pub fn make_config_consistent(self) -> (config: Config)
        ensures
            config.consistent(),
            config.utxo_validation == (self.utxo_validation || !self.debug),
            config == (Config {
                utxo_validation: config.utxo_validation,
                txpool_utxo_validation: config.utxo_validation,
                ..self
            }),
            self.consistent() ==> config == self,
    {
        let mut config = self;
        if !config.debug && !config.utxo_validation {
            config.utxo_validation = true;
        }
        if config.txpool_utxo_validation != config.utxo_validation {
            config.txpool_utxo_validation = config.utxo_validation;
        }
        config
    }

    /// The settings of a local node: everything enabled, no validation of
    /// inputs against the persistent state, twenty seconds for a block.
    pub fn local_node() -> (config: Config)
        ensures
            config.consistent(),
            config == (Config {
                debug: true,
                historical_execution: true,
                utxo_validation: false,
                txpool_utxo_validation: false,
                da_compression: DaCompressionMode::Disabled,
                production_timeout: 20,
            }),
    {
        let utxo_validation = false;
        Config {
            debug: true,
            historical_execution: true,
            utxo_validation,
            txpool_utxo_validation: utxo_validation,
            da_compression: DaCompressionMode::Disabled,
            production_timeout: 20,
        }
    }

    /// Whether an operation that needs historical execution may run.
    pub fn require_historical_execution(&self) -> (res: Result<(), HistoricalExecutionRequired>)
        ensures
            res.is_ok() == self.historical_execution,
    {
        if self.historical_execution {
            Ok(())
        } else {
            Err(HistoricalExecutionRequired {  })
        }
    }
}

/// The settings of the gas price: its start, its bounds and how it reacts.
#[derive(Clone, Copy, Debug, PartialEq, Eq, Structural)]
pub struct GasPriceConfig {
    pub starting_exec_gas_price: u64,
    pub exec_gas_price_change_percent: u16,
    pub min_exec_gas_price: u64,
    pub exec_gas_price_threshold_percent: u8,
    /// Seconds between two polls of the data-availability costs.
    pub da_poll_interval: Option<u64>,
    /// Never zero.
    pub da_gas_price_factor: u64,
    pub starting_recorded_height: Option<u32>,
    pub min_da_gas_price: u64,
    pub max_da_gas_price: u64,
    pub max_da_gas_price_change_percent: u16,
    pub da_gas_price_p_component: i64,
    pub da_gas_price_d_component: i64,
    pub gas_price_metrics: bool,
    pub activity_normal_range_size: u16,
    pub activity_capped_range_size: u16,
    pub activity_decrease_range_size: u16,
    pub block_activity_threshold: u8,
}

impl GasPriceConfig {
    pub open spec fn wf(&self) -> bool {
        self.da_gas_price_factor > 0
    }

    /// The settings of a local node: a gas price that stays at zero.
    pub fn local_node() -> (config: GasPriceConfig)
        ensures
            config.wf(),
            config == (GasPriceConfig {
                starting_exec_gas_price: 0,
                exec_gas_price_change_percent: 0,
                min_exec_gas_price: 0,
                exec_gas_price_threshold_percent: 50,
                da_poll_interval: Some(1u64),
                da_gas_price_factor: 100,
                starting_recorded_height: None,
                min_da_gas_price: 0,
                max_da_gas_price: 1,
                max_da_gas_price_change_percent: 0,
                da_gas_price_p_component: 0,
                da_gas_price_d_component: 0,
                gas_price_metrics: false,
                activity_normal_range_size: 0,
                activity_capped_range_size: 0,
                activity_decrease_range_size: 0,
                block_activity_threshold: 0,
            }),
    {
        let starting_gas_price: u64 = 0;
        let gas_price_change_percent: u16 = 0;
        let min_gas_price: u64 = 0;
        let gas_price_threshold_percent: u8 = 50;
        let gas_price_metrics = false;
        GasPriceConfig {
            starting_exec_gas_price: starting_gas_price,
            exec_gas_price_change_percent: gas_price_change_percent,
            min_exec_gas_price: min_gas_price,
            exec_gas_price_threshold_percent: gas_price_threshold_percent,
            da_gas_price_factor: 100,
            starting_recorded_height: None,
            min_da_gas_price: 0,
            max_da_gas_price: 1,
            max_da_gas_price_change_percent: 0,
            da_gas_price_p_component: 0,
            da_gas_price_d_component: 0,
            gas_price_metrics,
            activity_normal_range_size: 0,
            activity_capped_range_size: 0,
            activity_decrease_range_size: 0,
            block_activity_threshold: 0,
            da_poll_interval: Some(1),
        }
    }
}

/// The operation needs `historical_execution`, which is switched off.
#[derive(Clone, Copy, Debug, PartialEq, Eq, Structural)]
pub struct HistoricalExecutionRequired {}

} // verus!
