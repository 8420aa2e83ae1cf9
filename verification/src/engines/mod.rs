//! Partition engines: tuple partitions refined by type keys, per fragment.

pub mod terms;
pub mod types;
pub mod partition;
pub mod dispatch;
pub mod positive;
pub mod horn;
pub mod ktypes;
pub mod splits;
pub mod tuple_model_hash;
pub mod refine_laws;
