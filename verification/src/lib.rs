//! Market-data fan-out: the message types of the feed, the publisher's
//! round-robin tick schedule and snapshot book, and the subscriber's gap
//! detection and per-frame coalescing, each as a state machine whose
//! transitions are verified. Sockets, threads, clocks and floating-point
//! price arithmetic are driven from outside these machines.

pub mod keyed;
pub mod proto;
pub mod publisher;
pub mod subscriber;
pub mod symbols;
