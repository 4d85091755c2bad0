//! A fixed-capacity open-addressing hash table that splits its slots into
//! levels of halving size and bounds probe lengths by each level's free ratio.

pub mod keys;
pub mod layout;
pub mod quarter_log;
pub mod table;

pub use keys::TableKey;
pub use table::{ElasticHashTable, TableError, TableStatus, PROBE_CONSTANT};
