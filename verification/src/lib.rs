//! Verified core of a transaction sender.
pub mod config;
pub mod contact;
pub mod delivery;
pub mod keys;
pub mod leader_tracker;
pub mod metrics;
pub mod outside;
pub mod priority;
pub mod retry_order;
pub mod rounds;
pub mod text;
pub mod transaction;
pub mod transaction_store;
pub mod txn_sender;
pub mod validators;
