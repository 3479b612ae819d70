//! Verified core of a virtual-screen multiplexer: a partition planner that
//! tiles a pixel display into near-square sections, a fixed-size frame codec
//! with coordinate remapping, the sections that bind grid cells to their
//! global origins, and the bounded FIFO queue that funnels every section's
//! frames into one upstream stream.

pub mod codec;
pub mod partition;
pub mod queue;
pub mod section;

