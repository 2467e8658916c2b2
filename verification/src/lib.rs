//! Availability tracking for branch appointment slots: reading the booking service's
//! answers, drilling down from dates to branches, comparing snapshots, notification
//! texts, the slot store, release statistics, the status page and the settings.
pub mod order;
pub mod text;
pub mod keys;
pub mod keyed;
pub mod json;
pub mod models;
pub mod snapshot;
pub mod parser;
pub mod responses;
pub mod changes;
pub mod notifier;
pub mod message;
pub mod state;
pub mod store_model;
pub mod history;
pub mod release;
pub mod web;
pub mod monitor;
pub mod round;
pub mod drill;
pub mod client;
pub mod config;
pub mod laws;
pub mod release_laws;
