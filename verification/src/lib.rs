//! Exact models and verified code of the CryptoSwap pool mathematics.
use vstd::prelude::*;

pub mod bounds;
pub mod callbacks;
pub mod coins;
pub mod cubic;
pub mod exchange;
pub mod exchange_ng;
pub mod exchange_tricrypto_v1;
pub mod exchange_twocrypto_ng;
pub mod exponential;
pub mod fault;
pub mod fees;
pub mod growth;
pub mod laws;
pub mod marginal;
pub mod newton;
pub mod pricing;
pub mod roots;
pub mod rounding;
pub mod signed;
pub mod solvers;
pub mod swap;
pub mod uint;

verus! {

} // verus!
