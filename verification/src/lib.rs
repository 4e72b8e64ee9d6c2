//! Verified engine for multi-protocol liquidity-pool price derivation and
//! arbitrage detection.
//!
//! The crate decodes raw on-chain pool account bytes, derives exact
//! fixed-point exchange rates from reserves or square-root prices, selects
//! the highest-liquidity pool among candidates, aggregates per-protocol
//! quotes gathered by a concurrent fetch loop, and ranks the price spreads
//! between two designated protocols. All prices are exact integers scaled
//! by `10^12`; the surrounding I/O (RPC transport, token-universe fetch,
//! log files) lives outside this crate and hands in plain values.

pub mod codec;
pub mod limbs;
pub mod price;
pub mod decode;
pub mod spread;
pub mod dex;
pub mod price_fetcher;
