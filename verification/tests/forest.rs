//! The read-only view of a forest.

use anomstream_core::{ForestSnapshot, ForestStats};

#[test]
fn fresh_forest_reports_its_capacity() {
    let forest = ForestStats::<4> {
        num_trees: 50,
        sample_size: 64,
        live_points: 0,
        updates_seen: 0,
        memory_estimate: 1_000,
    };
    assert_eq!(forest.snapshot_num_trees(), 50);
    assert_eq!(forest.snapshot_dimension(), 4);
    assert_eq!(forest.snapshot_updates_seen(), 0);
}

#[test]
fn each_counter_is_reported_by_its_own_method() {
    let forest = ForestStats::<7> {
        num_trees: 1,
        sample_size: 2,
        live_points: 3,
        updates_seen: 5,
        memory_estimate: 6,
    };
    assert_eq!(forest.snapshot_num_trees(), 1);
    assert_eq!(forest.snapshot_sample_size(), 2);
    assert_eq!(forest.snapshot_live_points(), 3);
    assert_eq!(forest.snapshot_updates_seen(), 5);
    assert_eq!(forest.snapshot_memory_estimate(), 6);
    assert_eq!(forest.snapshot_dimension(), 7);
}

/// A forest of somebody else's.
struct Grove {
    trees: Vec<u32>,
}

impl ForestSnapshot for Grove {
    fn snapshot_num_trees(&self) -> usize {
        self.trees.len()
    }
    fn snapshot_sample_size(&self) -> usize {
        256
    }
    fn snapshot_dimension(&self) -> usize {
        2
    }
    fn snapshot_live_points(&self) -> usize {
        self.trees.iter().map(|&points| points as usize).sum()
    }
    fn snapshot_updates_seen(&self) -> u64 {
        11
    }
    fn snapshot_memory_estimate(&self) -> usize {
        4 * self.trees.len()
    }
}

/// What a consumer reads through the view alone.
fn live_points_per_tree<F: ForestSnapshot>(forest: &F) -> usize {
    forest.snapshot_live_points() / forest.snapshot_num_trees()
}

#[test]
fn other_forests_can_be_looked_at_too() {
    let grove = Grove { trees: vec![5, 6, 7] };
    assert_eq!(live_points_per_tree(&grove), 6);
    assert_eq!(grove.snapshot_updates_seen(), 11);
}
