pub mod driver;
pub mod lines;
pub mod model;
pub mod summary;
pub mod types;

pub use driver::{ReplayDriver, ReplayError, ReplayResult};
pub use summary::ReplaySummary;
pub use types::{ReplayEvent, ReplayEventKind, ReplayOutputEvent, ReplayOutputKind};
