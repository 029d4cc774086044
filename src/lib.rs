//! A minimal unspent-transaction-output ledger: value units owned by
//! addresses, transactions that consume and create them, a canonical
//! transaction identifier, and a transaction builder that selects coins.

pub mod builder;
pub mod codec;
pub mod customerror;
pub mod utxo;
pub mod wallet;
