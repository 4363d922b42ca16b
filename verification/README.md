# sui_gas_pool

A gas pool for sponsored Sui transactions. The library in `src/` holds the
pool's logic with its contracts, proved by Verus: the bookkeeping of gas coins
(reservation, expiry, readiness, return to the pool), the locks on reserved
coins and on the objects a transaction uses, the daily gas usage cap, the
checks made on sponsored transactions, the decisions of a transaction's
execution, the arithmetic of splitting large coins, and the record format the
storage keeps coins in. Laws that relate several operations stand in
`pool_laws.rs`, `lock_laws.rs` and beside the functions they speak of.

`app/` is the server around it: configuration, the RPC server and client,
storage in Redis, the Sui fullnode client, signing, metrics and the command
line tools. `tests/` runs the library on concrete values.
