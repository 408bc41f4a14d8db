//! A minimal embedded tabular data store.
//!
//! A named database holds named tables; each table has a fixed column schema
//! and an ordered sequence of typed rows. A database can be serialized to a
//! self-describing byte format and reconstructed from it, and every table is
//! re-validated against its schema on reconstruction. All structural
//! operations carry contracts that pin down exactly what they return and how
//! they change the store; file I/O stays outside the library, which only
//! produces and consumes byte vectors.

pub mod codec;
pub mod database;
pub mod order;
pub mod table;
pub mod types;

pub use database::PinnedDatabase;
pub use table::Table;

pub use types::ComplexInt;
pub use types::ComplexReal;
pub use types::DbError;
pub use types::DbType;
pub use types::DbValue;
pub use types::Row;
pub use types::ValueV;
