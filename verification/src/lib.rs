//! Difference bound matrices: zones of clock valuations for timed-automata
//! analysis, with machine-checked contracts.

pub mod bound;
pub mod canonical;
pub mod closure;
pub mod constant;
pub mod dbm;
pub mod error;
pub mod exact;
pub mod incremental;
pub mod laws;
pub mod limit;
pub mod matrix;
pub mod rdbm;
pub mod semantics;
pub mod storage;
pub mod witness;
pub mod zone;

pub use crate::bound::Bound;
pub use crate::constant::Constant;
pub use crate::dbm::DBM;
pub use crate::error::DbmError;
pub use crate::rdbm::RDBM;
