//! Discovery of profitable closed trading loops through a graph of
//! two-asset liquidity pools, starting and ending at a fixed root asset.
//!
//! The search walks the pool graph to a bounded depth, memoizes the best
//! continuation per `(pool, token)` state, multiplies fee-adjusted exchange
//! rates exactly, prunes paths whose implied trade would exhaust a pool's
//! reserve, and ranks the discovered cycles.

pub mod cycler;
pub mod dec;
pub mod pool;
pub mod token;
