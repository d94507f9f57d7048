pub mod fold;
pub mod key;
pub mod map;
pub mod map_stats;
pub mod node;
mod priority;
pub mod set;
pub mod set_stats;
pub mod sums;

pub use fold::FoldStats;
pub use key::TreapKey;
pub use map::TreapMap;
pub use map_stats::{EmptyStats, MapStats};
pub use set::TreapSet;
pub use set_stats::{SetStats, SetStatsToMapStats};
pub use sums::{ElementSum, KeyValueSum};
