//! A gas pool for sponsored Sui transactions: the bookkeeping of gas coins,
//! their reservation, locking, expiry and release, the checks made on
//! sponsored transactions, and the arithmetic of splitting coins.

pub mod base_types;
pub mod clock;
pub mod gas_groups;
pub mod keyed;
pub mod coin_order;
pub mod gas_store;
pub mod pool_laws;
pub mod locked_gas_coins;
pub mod lock_laws;
pub mod object_locks;
pub mod gas_usage_cap;
pub mod coin_split;
pub mod gas_pool_core;
pub mod tx_signer;
pub mod config;
pub mod rpc_types;
pub mod benchmark_stats;
pub mod rocksdb_storage;
pub mod gas_station;
pub mod rpc_server;
pub mod execute_flow;
pub mod coin_record;
