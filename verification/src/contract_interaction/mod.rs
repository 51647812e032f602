//! Calling other contracts: the description of one call.

pub mod contract_call;

pub use contract_call::ContractCall;
