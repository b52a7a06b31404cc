//! Read-only health and capacity view of a random cut forest.

use vstd::prelude::*;

verus! {

/// Read-only snapshot view of a forest's capacity and health.
///
/// Calibration and triage pipelines need sizing and progress information only, so that is all it
/// offers: a consumer can look at a forest through it without access to the reservoirs or the
/// trees.
pub trait ForestSnapshot {
    /// Number of trees in the forest.
    fn snapshot_num_trees(&self) -> (count: usize);

    /// Per-tree reservoir capacity.
    fn snapshot_sample_size(&self) -> (size: usize);

    /// Per-point dimensionality, fixed at compile time.
    fn snapshot_dimension(&self) -> (dimension: usize);

    /// Live points that at least one tree refers to.
    fn snapshot_live_points(&self) -> (count: usize);

    /// Total number of updates seen since construction.
    fn snapshot_updates_seen(&self) -> (count: u64);

    /// Pessimistic upper bound on the forest's memory footprint, in bytes: point store, tree
    /// arenas, samplers and random number generators.
    fn snapshot_memory_estimate(&self) -> (bytes: usize);
}

/// The counters of a forest over points of `D` coordinates, as plain values.
#[derive(Clone, Copy, Debug)]
pub struct ForestStats<const D: usize> {
    /// Number of trees.
    pub num_trees: usize,
    /// Reservoir capacity of each tree.
    pub sample_size: usize,
    /// Points that at least one tree refers to.
    pub live_points: usize,
    /// Updates since the forest was built.
    pub updates_seen: u64,
    /// Upper bound on the memory footprint, in bytes.
    pub memory_estimate: usize,
}

impl<const D: usize> ForestSnapshot for ForestStats<D> {
    fn snapshot_num_trees(&self) -> (count: usize)
        ensures
            count == self.num_trees,
    {
        self.num_trees
    }

    fn snapshot_sample_size(&self) -> (size: usize)
        ensures
            size == self.sample_size,
    {
        self.sample_size
    }

    fn snapshot_dimension(&self) -> (dimension: usize)
        ensures
            dimension == D,
    {
        D
    }

    fn snapshot_live_points(&self) -> (count: usize)
        ensures
            count == self.live_points,
    {
        self.live_points
    }

    fn snapshot_updates_seen(&self) -> (count: u64)
        ensures
            count == self.updates_seen,
    {
        self.updates_seen
    }

    fn snapshot_memory_estimate(&self) -> (bytes: usize)
        ensures
            bytes == self.memory_estimate,
    {
        self.memory_estimate
    }
}

} // verus!
