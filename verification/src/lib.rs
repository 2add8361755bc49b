//! Rotating savings circles (ajo / esusu / adashe): the lifecycle of many
//! circles and a cross-circle reputation registry, as verified state
//! machines. Each operation returns the token movements, events and
//! reputation reports it asks the ledger to carry out.
pub mod types;
pub mod record;
pub mod settle;
pub mod circle;
pub mod reputation;
pub mod laws;
