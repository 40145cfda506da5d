# argus

Block fetching, reorg detection and RPC retry settings for an EVM chain monitor, with the
decisions proved in Verus.

- `src/` is the verified library:
  - `block_fetcher`: `FetchConfig`, splitting a block range into log-request chunks
    (`chunk_range`) and halving a rejected range (`halve_range`).
  - `log_fetch`: `LogFetchPlan`, the state of a chunked, adaptive log fetch: which ranges
    to request next, what to do with each outcome, when the fetch ends.
  - `block_assembly`: matching fetched blocks with their logs and receipts, ordered by
    block number.
  - `coverage`: sums over sequences of block ranges, used to state that ranges hold every
    block exactly once.
  - `reorg`: `ReorgDetector`, parent-hash continuity checks.
  - `rpc_retry`: `RpcRetryConfig` and its defaults.
- `app/` performs the requests (async, against a data source), reads settings with serde,
  and converts the RPC types into the library's plain values.
- `tests/` exercises the library on concrete values.
