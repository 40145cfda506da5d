//! Block fetching, reorg detection and RPC retry settings for an EVM chain monitor.
pub mod block_assembly;
pub mod block_fetcher;
pub mod coverage;
pub mod log_fetch;
pub mod reorg;
pub mod rpc_retry;
