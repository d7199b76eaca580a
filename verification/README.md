# kiro-rs core

The verified core of the kiro-rs gateway, written in Verus.

- `src/time.rs` – instants as plain values and the clock reads.
- `src/auth.rs` – constant-time key comparison and the decision on each
  request (master key, user keys, admin key).
- `src/api_key.rs` – API keys, their validity and expiry, and the registry.
- `src/proxy_pool.rs` – the proxy pool: CRUD, round-robin and sticky selection,
  health bookkeeping.
- `src/binding.rs` – credential-to-proxy bindings and the greedy least-load
  rebalance, with its laws.
- `src/health.rs` – the effect of single and background health checks.
- `src/concurrency.rs` – per-credential requests in flight.
- `app/` – JSON persistence, locks, proxy probing and the axum layer.
