//! Dynamics bookkeeping: bodies keyed by generational handles, in islands.

pub mod store;

pub use store::{BodyStore, BodyStoreError};
