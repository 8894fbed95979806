//! A verified event database for prediction-market tickers.

pub mod api;
pub mod boot;
pub mod compaction;
pub mod database;
pub mod dates;
pub mod envelope;
pub mod index;
pub mod json;
pub mod lists;
pub mod mesh_sync;
pub mod p2p_db_server;
pub mod poly_api;
pub mod promises;
pub mod proxy;
pub mod records;
pub mod refresh;
pub mod server;
pub mod tailnet_fns;
pub mod text;
pub mod transfer;
pub mod version;
