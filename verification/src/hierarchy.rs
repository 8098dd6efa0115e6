//! The objects that a topology is made of: nodes, LLCs, cores and CPUs.

use crate::cpumask::{Cpumask, CpumaskView};
use std::collections::BTreeMap;
use std::sync::Arc;
use vstd::prelude::*;

verus! {

/// What a core is made for.
#[derive(Debug, Clone, Copy, Eq, Hash, Ord, PartialEq, PartialOrd, Structural)]
pub enum CoreType {
    Big { turbo: bool },
    Little,
}

/// A logical CPU.
#[derive(Debug, Clone, Copy, Eq, Hash, Ord, PartialEq, PartialOrd, Structural)]
pub struct Cpu {
    pub id: usize,
    pub min_freq: usize,
    pub max_freq: usize,
    /// Base operational frequency. Only available on Intel Turbo Boost CPUs. If
    /// not available, this is the maximum frequency.
    pub base_freq: usize,
    pub trans_lat_ns: usize,
    pub l2_id: usize,
    pub l3_id: usize,
    pub core_type: CoreType,
    /// Ancestor IDs.
    pub core_id: usize,
    pub llc_id: usize,
    pub node_id: usize,
}

/// A physical core with its CPUs.
#[derive(Debug, Eq, Ord, PartialEq, PartialOrd)]
pub struct Core {
    /// Monotonically increasing unique id
    pub id: usize,
    /// The sysfs value of core_id
    pub kernel_id: usize,
    pub cpus: BTreeMap<usize, Arc<Cpu>>,
    /// Cpumask of all CPUs in this core.
    pub span: Cpumask,
    pub core_type: CoreType,
    /// Ancestor IDs.
    pub llc_id: usize,
    pub node_id: usize,
}

/// The cores that share a last-level cache.
#[derive(Debug)]
pub struct Llc {
    /// Monotonically increasing unique id
    pub id: usize,
    /// The kernel id of the llc
    pub kernel_id: usize,
    pub cores: BTreeMap<usize, Arc<Core>>,
    /// Cpumask of all CPUs in this llc.
    pub span: Cpumask,
    /// Ancestor IDs.
    pub node_id: usize,
    /// Skip indices to access lower level members easily.
    pub all_cpus: BTreeMap<usize, Arc<Cpu>>,
}

/// A NUMA node.
#[derive(Debug)]
pub struct Node {
    pub id: usize,
    pub llcs: BTreeMap<usize, Arc<Llc>>,
    /// Cpumask of all CPUs in this node.
    pub span: Cpumask,
    /// Skip indices to access lower level members easily.
    pub all_cores: BTreeMap<usize, Arc<Core>>,
    pub all_cpus: BTreeMap<usize, Arc<Cpu>>,
    /// The GPUs that are attached to this node.
    pub gpus: BTreeMap<GpuIndex, Gpu>,
}

/// The number by which a GPU is known on its host.
pub type GpuIndex = usize;

/// A GPU.
#[derive(Debug, Clone, Copy, Eq, Hash, Ord, PartialEq, PartialOrd, Structural)]
pub struct Gpu {
    pub index: GpuIndex,
    /// Ancestor IDs.
    pub node_id: usize,
}

/// What a [`Core`] stands for.
#[verifier::ext_equal]
pub struct CoreView {
    pub id: usize,
    pub kernel_id: usize,
    pub cpus: Map<usize, Cpu>,
    pub span: CpumaskView,
    pub core_type: CoreType,
    pub llc_id: usize,
    pub node_id: usize,
}

/// What an [`Llc`] stands for.
#[verifier::ext_equal]
pub struct LlcView {
    pub id: usize,
    pub kernel_id: usize,
    pub cores: Map<usize, CoreView>,
    pub span: CpumaskView,
    pub node_id: usize,
    pub all_cpus: Map<usize, Cpu>,
}

/// What a [`Node`] stands for.
#[verifier::ext_equal]
pub struct NodeView {
    pub id: usize,
    pub llcs: Map<usize, LlcView>,
    pub span: CpumaskView,
    pub all_cores: Map<usize, CoreView>,
    pub all_cpus: Map<usize, Cpu>,
    pub gpus: Map<GpuIndex, Gpu>,
}

/// The CPUs that a map of shared CPUs holds.
pub open spec fn cpus_view(cpus: Map<usize, Arc<Cpu>>) -> Map<usize, Cpu> {
    cpus.map_values(|cpu: Arc<Cpu>| *cpu)
}

/// The cores that a map of shared cores holds.
pub open spec fn cores_view(cores: Map<usize, Arc<Core>>) -> Map<usize, CoreView> {
    cores.map_values(|core: Arc<Core>| (*core)@)
}

/// The LLCs that a map of shared LLCs holds.
pub open spec fn llcs_view(llcs: Map<usize, Arc<Llc>>) -> Map<usize, LlcView> {
    llcs.map_values(|llc: Arc<Llc>| (*llc)@)
}

/// The nodes that a map of nodes holds.
pub open spec fn nodes_view(nodes: Map<usize, Node>) -> Map<usize, NodeView> {
    nodes.map_values(|node: Node| node@)
}

impl View for Core {
    type V = CoreView;

    open spec fn view(&self) -> CoreView {
        CoreView {
            id: self.id,
            kernel_id: self.kernel_id,
            cpus: cpus_view(self.cpus@),
            span: self.span@,
            core_type: self.core_type,
            llc_id: self.llc_id,
            node_id: self.node_id,
        }
    }
}

impl View for Llc {
    type V = LlcView;

    open spec fn view(&self) -> LlcView {
        LlcView {
            id: self.id,
            kernel_id: self.kernel_id,
            cores: cores_view(self.cores@),
            span: self.span@,
            node_id: self.node_id,
            all_cpus: cpus_view(self.all_cpus@),
        }
    }
}

impl View for Node {
    type V = NodeView;

    open spec fn view(&self) -> NodeView {
        NodeView {
            id: self.id,
            llcs: llcs_view(self.llcs@),
            span: self.span@,
            all_cores: cores_view(self.all_cores@),
            all_cpus: cpus_view(self.all_cpus@),
            gpus: self.gpus@,
        }
    }
}

impl Clone for Core {
    fn clone(&self) -> (core: Self)
        ensures
            core@ == self@,
    {
        Core {
            id: self.id,
            kernel_id: self.kernel_id,
            cpus: self.cpus.clone(),
            span: self.span.clone(),
            core_type: self.core_type,
            llc_id: self.llc_id,
            node_id: self.node_id,
        }
    }
}

impl Clone for Llc {
    fn clone(&self) -> (llc: Self)
        ensures
            llc@ == self@,
    {
        Llc {
            id: self.id,
            kernel_id: self.kernel_id,
            cores: self.cores.clone(),
            span: self.span.clone(),
            node_id: self.node_id,
            all_cpus: self.all_cpus.clone(),
        }
    }
}

impl Clone for Node {
    fn clone(&self) -> (node: Self)
        ensures
            node@ == self@,
    {
        Node {
            id: self.id,
            llcs: self.llcs.clone(),
            span: self.span.clone(),
            all_cores: self.all_cores.clone(),
            all_cpus: self.all_cpus.clone(),
            gpus: self.gpus.clone(),
        }
    }
}

/// `Arc::clone`: another pointer to the same allocation, so what it points to
/// is what the given pointer points to.
#[verifier::external_body]
pub(crate) fn share<T>(shared: &Arc<T>) -> (other: Arc<T>)
    ensures
        other == *shared,
{
    Arc::clone(shared)
}

} // verus!
