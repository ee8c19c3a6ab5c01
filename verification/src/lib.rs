//! S3-FIFO cache eviction policy: three FIFO queues (small, main, ghost)
//! with per-entry saturating frequency counters.

pub mod cache;
pub mod laws;
pub mod model;

pub use cache::S3Fifo;
pub use model::Entry;
pub use model::MAX_FREQ;
