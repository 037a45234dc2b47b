//! A concentrated-liquidity constant-product market maker.
//!
//! Liquidity providers supply a pair of token balances bounded between two
//! prices; traders swap one token for the other along a piecewise-constant
//! virtual reserve curve.  Prices are square roots in Q64.96 fixed point,
//! fee growth is tracked in Q128.128, and all wide arithmetic is carried
//! out on verified 256- and 512-bit integers.
//!
//! The pool, factory and position bookkeeping are in-memory state
//! machines; the embedding performs token transfers, callbacks, identity
//! checks and persistence around them, holding every balance check the
//! pool returns against its own ledger.

pub mod bitmath;
pub mod error;
pub mod events;
pub mod factory;
pub mod fixed_point_128;
pub mod fixed_point_96;
pub mod fullmath;
pub mod i128;
pub mod i256;
pub mod liquidity_amounts;
pub mod liquidity_math;
pub mod oracle;
pub mod path;
pub mod pausable;
pub mod pool;
pub mod position;
pub mod router;
pub mod safe_cast;
pub mod sqrt_price_math;
pub mod swap_math;
pub mod tick;
pub mod tick_bitmap;
pub mod tickmath;
pub mod u256;
pub mod utils;
