//! Priority-queue structures with verified contracts.
//!
//! The central piece is the slot protocol of a bounded concurrent binary
//! max-heap: a fixed array of lockable slots, a size register, and the
//! sift-up / sift-down walks that repair the heap order. The decision
//! steps of those walks live in [`slot`], and [`heap`] runs the whole
//! protocol over the slot array with its invariants proved. An embedding
//! runtime supplies the per-slot locks and the blocking discipline and
//! drives the same verified steps.
//!
//! Two sequential companions, a D-ary heap ([`dary`]) and a treap
//! ([`treap`]), round out the crate.

pub mod slot;
pub mod heap;
pub mod dary;
pub mod treap;
