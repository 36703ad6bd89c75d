//! The SQL layer: statement parsing, table descriptions and query operators.
pub mod catalog;
pub mod executor;
pub mod optimizer;
pub mod parser;
pub mod rows;
pub mod types;
pub mod values;
pub mod write_buffer;
pub mod volcano;

pub use parser::{Parser, Statement};
pub use types::{ColumnDef, DataType, TableSchema};
