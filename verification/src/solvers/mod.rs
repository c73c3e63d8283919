//! The solvers of the CryptoSwap invariant.
pub mod tricrypto_ng;
pub mod twocrypto_ng;
