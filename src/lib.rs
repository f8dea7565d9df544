//! Progress tracking for nested timely dataflow scopes: which timestamps may still arrive
//! at each input of each operator, under nested iteration.

pub mod antichain;
pub mod count_map;
pub mod mutable_antichain;
pub mod order;
pub mod pointstamps;
pub mod progress;
pub mod reachability;
pub mod subgraph;
pub mod summary;
