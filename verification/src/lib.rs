//! A sealed, single-round batch auction that sells a fixed supply of
//! fungible units for a payment asset, then settles each participant's
//! claim or refund exactly once.
//!
//! Bids accumulate in an append-only ledger while the auction is open.
//! After the deadline the clearing engine runs once: it ranks the bids
//! by descending unit price (ties keep submission order), walks the
//! ranking until the supply is exhausted — splitting at most one
//! boundary bid pro rata — and fixes one uniform clearing price from
//! the last winner. Thereafter each winner entry can be claimed
//! exactly once, and each loser refunded exactly once.

pub mod auction;
pub mod clearing;
pub mod factory;
pub mod math;
pub mod order;
pub mod sorting;

pub use auction::{Auction, AuctionError, Contract, ErrorKind};
pub use factory::is_valid_token_id;
pub use order::Order;
