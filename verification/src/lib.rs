//! Determines the highest x86-64 microarchitecture level that every member
//! node of a cluster supports, so that virtual machines can be pinned to a
//! CPU model compatible with live migration to any node.
//!
//! The pipeline: parse a block-structured cluster-membership descriptor into
//! a node list, classify each node's CPU capability from its feature-flag
//! set, and aggregate the per-node levels into a cluster-wide minimum.

pub mod cluster;
pub mod cpu;
pub mod features;
pub mod parser;
pub mod text;

pub use cpu::CpuType;
