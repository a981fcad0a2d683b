//! In-place patience sort: the input is split into ascending runs that grow
//! at either end, and the runs are merged between the input's storage and one
//! auxiliary buffer, alternating between the two.

pub mod order;
pub mod merge;
pub mod search;
pub mod runs;
pub mod schedule;
pub mod sort;
pub mod laws;

pub use sort::patience_sort;
pub use runs::{generate_runs, sqrt};
pub use search::{bsearch, runs_bsearch, runs_search};
pub use merge::{blind_merge, slice_merge};
