//! The gas station's settings and their defaults.

use vstd::prelude::*;

verus! {

/// One SUI in MIST, its smallest unit.
pub const MIST_PER_SUI: u64 = 1_000_000_000;

pub const DEFAULT_RPC_PORT: u16 = 9527;

pub const DEFAULT_METRICS_PORT: u16 = 9184;

/// 0.1 SUI.
pub const DEFAULT_INIT_COIN_BALANCE: u64 = 100_000_000;

/// 24 hours.
pub const DEFAULT_COIN_POOL_REFRESH_INTERVAL_SEC: u64 = 86_400;

/// 1500 SUI.
pub const DEFAULT_DAILY_GAS_USAGE_CAP: u64 = 1_500_000_000_000;

/// 2 SUI.
pub const DEFAULT_MAX_SUI_PER_REQUEST: u64 = 2_000_000_000;

pub const DEFAULT_REDIS_CONNECTION_TIMEOUT_MS: u64 = 5000;

pub const DEFAULT_REDIS_RESPONSE_TIMEOUT_MS: u64 = 5000;

/// The URL of the Redis server used when none is configured.
pub const DEFAULT_REDIS_URL: &'static str = "redis://127.0.0.1:6379";

/// The constants are what their comments say in SUI.
pub proof fn lemma_default_amounts()
    ensures
        DEFAULT_INIT_COIN_BALANCE == MIST_PER_SUI / 10,
        DEFAULT_DAILY_GAS_USAGE_CAP == 1500 * MIST_PER_SUI,
        DEFAULT_MAX_SUI_PER_REQUEST == 2 * MIST_PER_SUI,
        DEFAULT_COIN_POOL_REFRESH_INTERVAL_SEC == 60 * 60 * 24,
{
}

/// How to connect to Redis: timeouts, retries and keepalive.
#[derive(Clone, Copy, Debug, PartialEq, Eq, Structural)]
pub struct RedisConnectionConfig {
    /// How long to wait when establishing a new connection, in milliseconds.
    pub connection_timeout_ms: u64,
    /// How long to wait for a response after sending a command, in milliseconds.
    pub response_timeout_ms: u64,
    /// How many times a failed operation is retried.
    pub number_of_retries: usize,
    /// The longest delay between retries, in milliseconds.
    pub max_retry_delay_ms: u64,
    /// The factor by which the delay between retries grows.
    pub retry_factor: u64,
    /// The interval of TCP keepalive probes, in seconds; 0 disables them.
    pub tcp_keepalive_secs: u64,
}

pub fn default_connection_timeout_ms() -> (r: u64)
    ensures
        r == DEFAULT_REDIS_CONNECTION_TIMEOUT_MS,
{
    DEFAULT_REDIS_CONNECTION_TIMEOUT_MS
}

pub fn default_response_timeout_ms() -> (r: u64)
    ensures
        r == DEFAULT_REDIS_RESPONSE_TIMEOUT_MS,
{
    DEFAULT_REDIS_RESPONSE_TIMEOUT_MS
}

pub fn default_number_of_retries() -> (r: usize)
    ensures
        r == 3,
{
    3
}

pub fn default_max_retry_delay_ms() -> (r: u64)
    ensures
        r == 5000,
{
    5000
}

pub fn default_retry_factor() -> (r: u64)
    ensures
        r == 2,
{
    2
}

pub fn default_tcp_keepalive_secs() -> (r: u64)
    ensures
        r == 60,
{
    60
}

pub fn default_max_sui_per_request() -> (r: u64)
    ensures
        r == DEFAULT_MAX_SUI_PER_REQUEST,
{
    DEFAULT_MAX_SUI_PER_REQUEST
}

impl Default for RedisConnectionConfig {
    fn default() -> (r: Self)
        ensures
            r == (RedisConnectionConfig {
                connection_timeout_ms: DEFAULT_REDIS_CONNECTION_TIMEOUT_MS,
                response_timeout_ms: DEFAULT_REDIS_RESPONSE_TIMEOUT_MS,
                number_of_retries: 3,
                max_retry_delay_ms: 5000,
                retry_factor: 2,
                tcp_keepalive_secs: 60,
            }),
    {
        RedisConnectionConfig {
            connection_timeout_ms: DEFAULT_REDIS_CONNECTION_TIMEOUT_MS,
            response_timeout_ms: DEFAULT_REDIS_RESPONSE_TIMEOUT_MS,
            number_of_retries: 3,
            max_retry_delay_ms: 5000,
            retry_factor: 2,
            tcp_keepalive_secs: 60,
        }
    }
}

/// Where the gas pool keeps its coins.
#[derive(Debug)]
pub enum GasPoolStorageConfig {
    Redis { redis_url: String, connection: RedisConnectionConfig },
}

impl Default for GasPoolStorageConfig {
    fn default() -> (r: Self)
        ensures
            r matches GasPoolStorageConfig::Redis { redis_url, connection }
                && redis_url@ == DEFAULT_REDIS_URL@
                && connection == (RedisConnectionConfig {
                    connection_timeout_ms: DEFAULT_REDIS_CONNECTION_TIMEOUT_MS,
                    response_timeout_ms: DEFAULT_REDIS_RESPONSE_TIMEOUT_MS,
                    number_of_retries: 3,
                    max_retry_delay_ms: 5000,
                    retry_factor: 2,
                    tcp_keepalive_secs: 60,
                }),
    {
        proof {
            broadcast use vstd::string::to_string_from_display_ensures_for_str;
        }
        GasPoolStorageConfig::Redis { redis_url: DEFAULT_REDIS_URL.to_string(), connection: RedisConnectionConfig::default() }
    }
}

/// How new coins are split: the balance aimed at for each new coin, in MIST,
/// and how often to look for new coins, in seconds.
#[derive(Clone, Copy, Debug, PartialEq, Eq, Structural)]
pub struct CoinInitConfig {
    pub target_init_balance: u64,
    pub refresh_interval_sec: u64,
}

impl Default for CoinInitConfig {
    fn default() -> (r: Self)
        ensures
            r == (CoinInitConfig {
                target_init_balance: DEFAULT_INIT_COIN_BALANCE,
                refresh_interval_sec: DEFAULT_COIN_POOL_REFRESH_INTERVAL_SEC,
            }),
    {
        CoinInitConfig {
            target_init_balance: DEFAULT_INIT_COIN_BALANCE,
            refresh_interval_sec: DEFAULT_COIN_POOL_REFRESH_INTERVAL_SEC,
        }
    }
}

} // verus!
