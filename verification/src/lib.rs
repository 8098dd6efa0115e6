//! # SCX Topology
//!
//! A crate that allows schedulers to inspect and model the host's topology, in
//! service of creating scheduling domains.
//!
//! A Topology is comprised of one or more Node objects, which themselves are
//! comprised hierarchically of LLC -> Core -> Cpu objects respectively. Every
//! object contains a Cpumask that spans all CPUs in that point in the
//! topological hierarchy.
//!
//! A [`Topology`] is created from a [`Sysfs`], which holds what sysfs says about
//! the host as plain values. All objects in the topological hierarchy are
//! read-only. If the host topology were to change (due to e.g. hotplug), a new
//! Topology object should be created.

pub mod bits;
pub mod builder;
pub mod cpumask;
pub mod error;
pub mod faults;
pub mod grammar;
pub mod hierarchy;
pub mod host;
pub mod indices;
pub mod laws;
pub mod order;
pub mod refusals;
pub mod soundness;
pub mod sysfs;
pub mod text;
pub mod topology;
pub mod topology_map;
pub mod visits;

pub use bits::CpuBits;
pub use cpumask::Cpumask;
pub use error::TopologyError;
pub use hierarchy::{Core, CoreType, Cpu, Gpu, GpuIndex, Llc, Node};
pub use sysfs::{CpuAttrs, CpuDir, NodeDir, Sysfs};
pub use topology::Topology;
pub use topology_map::TopologyMap;
