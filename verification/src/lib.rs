//! Fixed-capacity, array-backed container primitives: stacks, ring queues and
//! an index-arena binary tree, together with a generic extrema scan.
//! Every container works over pre-sized storage and never grows past the
//! capacity it was constructed with.

pub mod compare;
pub mod queue;
pub mod stack;
pub mod tree;
