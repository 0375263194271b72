pub mod hash;
pub mod laws;
pub mod ledger;
pub mod migration;
pub mod store;
