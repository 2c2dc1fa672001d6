//! The epoch-scoped write and read core of a versioned key-value store: write conflict
//! detection per epoch, prefix key bounds, and directed range iteration.
pub mod conflict_detector;
pub mod iterator;
pub mod key;
pub mod state_store;
pub mod storage;
pub mod value;
