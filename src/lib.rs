//! Broad-phase collision detection for axis-aligned bounding volumes: a
//! hierarchical bit-tree set, a stable radix argsort and a two-axis
//! sweep-and-prune engine built on both.
use vstd::prelude::*;

pub mod bits;
pub mod radix_sort;
pub mod succinct_tree;
pub mod sweep_and_prune;
