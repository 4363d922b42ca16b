use sui_gas_pool::benchmark_stats::BenchmarkStatsPerSecond;
use sui_gas_pool::config::{
    default_connection_timeout_ms, default_max_retry_delay_ms, default_max_sui_per_request, default_number_of_retries,
    default_response_timeout_ms, default_retry_factor, default_tcp_keepalive_secs, CoinInitConfig, GasPoolStorageConfig,
    RedisConnectionConfig, MIST_PER_SUI,
};

#[test]
fn redis_connection_defaults() {
    let c = RedisConnectionConfig::default();
    assert_eq!(c.connection_timeout_ms, 5000);
    assert_eq!(c.response_timeout_ms, 5000);
    assert_eq!(c.number_of_retries, 3);
    assert_eq!(c.max_retry_delay_ms, 5000);
    assert_eq!(c.retry_factor, 2);
    assert_eq!(c.tcp_keepalive_secs, 60);
    assert_eq!(default_connection_timeout_ms(), c.connection_timeout_ms);
    assert_eq!(default_response_timeout_ms(), c.response_timeout_ms);
    assert_eq!(default_number_of_retries(), c.number_of_retries);
    assert_eq!(default_max_retry_delay_ms(), c.max_retry_delay_ms);
    assert_eq!(default_retry_factor(), c.retry_factor);
    assert_eq!(default_tcp_keepalive_secs(), c.tcp_keepalive_secs);
}

#[test]
fn storage_and_coin_init_defaults() {
    match GasPoolStorageConfig::default() {
        GasPoolStorageConfig::Redis { redis_url, connection } => {
            assert_eq!(redis_url, "redis://127.0.0.1:6379");
            assert_eq!(connection, RedisConnectionConfig::default());
        }
    }
    let c = CoinInitConfig::default();
    assert_eq!(c.target_init_balance, MIST_PER_SUI / 10);
    assert_eq!(c.refresh_interval_sec, 86_400);
    assert_eq!(default_max_sui_per_request(), 2 * MIST_PER_SUI);
}

#[test]
fn benchmark_stats_count() {
    let mut s = BenchmarkStatsPerSecond::default();
    s.update_success(15);
    s.update_success(5);
    s.update_error();
    assert_eq!(s.num_requests, 3);
    assert_eq!(s.total_latency, 20);
    assert_eq!(s.num_errors, 1);
}

#[test]
fn benchmark_second_report() {
    let prev = BenchmarkStatsPerSecond { num_requests: 10, total_latency: 100, num_errors: 2 };
    let cur = BenchmarkStatsPerSecond { num_requests: 15, total_latency: 190, num_errors: 3 };
    let r = cur.report_since(&prev);
    assert_eq!(r.requests_per_second, 5);
    assert_eq!(r.errors_per_second, 1);
    assert_eq!(r.average_latency, 22);
    assert_eq!(cur.report_since(&cur).average_latency, 0);
}
