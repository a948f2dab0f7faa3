//! Assembles a computation graph of shared values and operations into a
//! model descriptor.
//!
//! Values and nodes live in an arena ([`graph::Graph`]) and are identified by
//! their handles, never by their contents. [`assemble::build_proto`] collects
//! what the declared outputs depend on, names every value once, places the
//! payloads of constants by a [`weights::WeightStorageStrategy`], and builds
//! the descriptor. [`pytorch`] holds builders for common layer patterns.

pub mod tensor;
pub mod graph;
pub mod reach;
pub mod naming;
pub mod weights;
pub mod assemble;
pub mod pytorch;
pub mod laws;
