//! Basic types: the account address and the JSON-string integer wrappers.

pub mod integers;
pub mod primitives;

pub use integers::{I128, I64, U128, U64};
pub use primitives::{Address, Balance, BlockHash, BlockNumber, Gas, TimeStamp};
