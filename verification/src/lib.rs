pub mod cli;
pub mod codec;
pub mod config;
pub mod network;
pub mod sql;
pub mod storage;
pub mod text;
pub mod wal;

pub use config::Config;
pub use storage::Database;
