//! What can go wrong while a topology is built.

use vstd::prelude::*;

verus! {

/// Why no topology could be built.
#[derive(Debug, PartialEq, Eq)]
pub enum TopologyError {
    /// The list of online CPUs could not be read.
    OnlineUnreadable,
    /// A group of the list of online CPUs is neither a number nor a range.
    ParseOnline { group: String },
    /// A CPU ID is beyond what a mask has room for.
    InvalidCpu { cpu: usize, nr_cpu_ids: usize },
    /// The core ID of an online CPU could not be read.
    CoreIdUnreadable { cpu: usize },
    /// A node lists a CPU twice.
    NodeHasCpu { node: usize, cpu: usize },
    /// The path of a CPU directory does not end in a CPU ID.
    ParseCpuId { path: String },
    /// The path of a NUMA node directory does not end in a node ID.
    ParseNodeId { path: String },
    /// sysfs has no directory of CPUs.
    NoCpuDirectory,
    /// Two cores hold a CPU with the same ID.
    DuplicateCpu { id: usize },
    /// Two LLCs hold a core with the same ID.
    DuplicateCore { id: usize },
    /// Two nodes hold an LLC with the same ID.
    DuplicateLlc { id: usize },
}

/// What a [`TopologyError`] stands for.
#[verifier::ext_equal]
pub enum ErrorView {
    OnlineUnreadable,
    ParseOnline { group: Seq<char> },
    InvalidCpu { cpu: usize, nr_cpu_ids: usize },
    CoreIdUnreadable { cpu: usize },
    NodeHasCpu { node: usize, cpu: usize },
    ParseCpuId { path: Seq<char> },
    ParseNodeId { path: Seq<char> },
    NoCpuDirectory,
    DuplicateCpu { id: usize },
    DuplicateCore { id: usize },
    DuplicateLlc { id: usize },
}

impl View for TopologyError {
    type V = ErrorView;

    open spec fn view(&self) -> ErrorView {
        match *self {
            TopologyError::OnlineUnreadable => ErrorView::OnlineUnreadable,
            TopologyError::ParseOnline { group } => ErrorView::ParseOnline { group: group@ },
            TopologyError::InvalidCpu { cpu, nr_cpu_ids } => ErrorView::InvalidCpu {
                cpu,
                nr_cpu_ids,
            },
            TopologyError::CoreIdUnreadable { cpu } => ErrorView::CoreIdUnreadable { cpu },
            TopologyError::NodeHasCpu { node, cpu } => ErrorView::NodeHasCpu { node, cpu },
            TopologyError::ParseCpuId { path } => ErrorView::ParseCpuId { path: path@ },
            TopologyError::ParseNodeId { path } => ErrorView::ParseNodeId { path: path@ },
            TopologyError::NoCpuDirectory => ErrorView::NoCpuDirectory,
            TopologyError::DuplicateCpu { id } => ErrorView::DuplicateCpu { id },
            TopologyError::DuplicateCore { id } => ErrorView::DuplicateCore { id },
            TopologyError::DuplicateLlc { id } => ErrorView::DuplicateLlc { id },
        }
    }
}

} // verus!
