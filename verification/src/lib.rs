//! Converts batches of flat records into column-oriented segment files:
//! dictionary-encoded string columns with inverted bitmap indexes, chunked
//! numeric columns, and the tables that tie them together. The functions
//! of this crate carry contracts that Verus proves; what they take from
//! other crates stands behind wrappers whose contracts are assumed, each
//! with a note of what it claims.

pub mod codec;
pub mod column;
pub mod conf;
pub mod error;
pub mod index;
pub mod indexed;
pub mod interner;
pub mod ordered_set;
pub mod permutation;
pub mod record;
pub mod segment;
pub mod store;
pub mod text;
pub mod wire;

pub use conf::{Compression, Conf};
pub use error::Error;
pub use store::Data;
