//! How the nodes of a topology are put together, CPU by CPU.

use crate::cpumask::{Cpumask, CpumaskView};
use crate::error::{ErrorView, TopologyError};
use crate::hierarchy;
use crate::hierarchy::{
    Core, CoreType, CoreView, Cpu, Gpu, GpuIndex, Llc, LlcView, Node, NodeView,
};
use crate::sysfs;
use crate::sysfs::{CpuAttrs, NodeDir, Sysfs};
use crate::text;
use std::collections::BTreeMap;
use std::sync::Arc;
use vstd::prelude::*;
use vstd::string::*;

verus! {

broadcast use vstd::laws_cmp::group_laws_cmp;

/// The IDs that were given out while a topology is built.
pub struct TopoCtx {
    /// Mapping of NUMA node core ids
    pub node_core_kernel_ids: BTreeMap<(usize, usize), usize>,
    /// Mapping of NUMA node LLC ids
    pub node_llc_kernel_ids: BTreeMap<(usize, usize), usize>,
}

/// What a [`TopoCtx`] stands for: the IDs by node and kernel ID.
#[verifier::ext_equal]
pub struct TopoCtxView {
    pub cores: Map<(usize, usize), usize>,
    pub llcs: Map<(usize, usize), usize>,
}

impl View for TopoCtx {
    type V = TopoCtxView;

    open spec fn view(&self) -> TopoCtxView {
        TopoCtxView { cores: self.node_core_kernel_ids@, llcs: self.node_llc_kernel_ids@ }
    }
}

impl TopoCtxView {
    /// The context in which no ID was given out.
    pub open spec fn none() -> TopoCtxView {
        TopoCtxView { cores: Map::empty(), llcs: Map::empty() }
    }
}

impl TopoCtx {
    /// A context in which no ID was given out.
    pub fn new() -> (ctx: TopoCtx)
        ensures
            ctx@ == TopoCtxView::none(),
    {
        TopoCtx { node_core_kernel_ids: BTreeMap::new(), node_llc_kernel_ids: BTreeMap::new() }
    }

    /// The numbers of IDs are within the range of `usize`.
    pub proof fn lemma_countable(&self)
        ensures
            self@.cores.len() <= usize::MAX,
            self@.llcs.len() <= usize::MAX,
    {
        assert(self.node_core_kernel_ids.len() == self@.cores.len());
        assert(self.node_llc_kernel_ids.len() == self@.llcs.len());
    }
}

/// The ID of `key`: the one that it has, or else the number of IDs so far.
pub open spec fn id_for(ids: Map<(usize, usize), usize>, key: (usize, usize)) -> usize {
    if ids.contains_key(key) {
        ids[key]
    } else {
        ids.len() as usize
    }
}

/// `ids` once `key` has an ID.
pub open spec fn with_id(ids: Map<(usize, usize), usize>, key: (usize, usize)) -> Map<
    (usize, usize),
    usize,
> {
    ids.insert(key, id_for(ids, key))
}

/// Gives `key` an ID, where it has none.
fn give_id(ids: &mut BTreeMap<(usize, usize), usize>, key: (usize, usize)) -> (id: usize)
    ensures
        id == id_for(old(ids)@, key),
        final(ids)@ == with_id(old(ids)@, key),
{
    let found: Option<usize> = match ids.get(&key) {
        Some(id) => Some(*id),
        None => None,
    };
    match found {
        Some(id) => {
            assert(with_id(ids@, key) =~= ids@);
            id
        },
        None => {
            let id = ids.len();
            ids.insert(key, id);
            id
        },
    }
}

/// What the CPUs of a node are put in place by.
pub struct Facts {
    /// The CPUs that are online.
    pub online: CpumaskView,
    /// What sysfs says about each CPU.
    pub attrs: Map<usize, CpuAttrs>,
    /// The average base frequency and the highest maximum frequency.
    pub avg_cpu_freq: Option<(usize, usize)>,
    /// Whether all CPUs of a node share one LLC, whatever sysfs says.
    pub flatten_llc: bool,
}

/// The number that was read, or else `default`.
pub open spec fn number_or(read: Option<usize>, default: usize) -> usize {
    match read {
        Some(number) => number,
        None => default,
    }
}

/// The type of a core by the frequencies of one of its CPUs, held against the
/// average base frequency and the highest maximum frequency of the host.
pub open spec fn core_type_for(
    avg_cpu_freq: Option<(usize, usize)>,
    max_freq: usize,
    base_freq: usize,
) -> CoreType {
    match avg_cpu_freq {
        Some((avg_base_freq, top_max_freq)) => if max_freq == top_max_freq {
            CoreType::Big { turbo: true }
        } else if base_freq >= avg_base_freq {
            CoreType::Big { turbo: false }
        } else {
            CoreType::Little
        },
        None => CoreType::Big { turbo: false },
    }
}

/// A core without a CPU.
pub open spec fn empty_core(
    id: usize,
    kernel_id: usize,
    core_type: CoreType,
    llc_id: usize,
    node_id: usize,
    nr_cpu_ids: nat,
) -> CoreView {
    CoreView {
        id,
        kernel_id,
        cpus: Map::empty(),
        span: CpumaskView::none(nr_cpu_ids),
        core_type,
        llc_id,
        node_id,
    }
}

/// An LLC without a core.
pub open spec fn empty_llc(id: usize, kernel_id: usize, node_id: usize, nr_cpu_ids: nat) -> LlcView {
    LlcView {
        id,
        kernel_id,
        cores: Map::empty(),
        span: CpumaskView::none(nr_cpu_ids),
        node_id,
        all_cpus: Map::empty(),
    }
}

impl Facts {
    /// What sysfs says about `cpu_id`.
    pub open spec fn of(self, cpu_id: usize) -> CpuAttrs {
        if self.attrs.contains_key(cpu_id) {
            self.attrs[cpu_id]
        } else {
            CpuAttrs::none()
        }
    }

    /// The kernel ID of the LLC of `cpu_id`: that of its L3 cache, or 0 where
    /// none is known or LLCs are flattened.
    pub open spec fn llc_kernel_id(self, cpu_id: usize) -> usize {
        if self.flatten_llc {
            0
        } else {
            number_or(self.of(cpu_id).l3_id, 0)
        }
    }

    pub open spec fn max_freq(self, cpu_id: usize) -> usize {
        number_or(self.of(cpu_id).max_freq, 0)
    }

    pub open spec fn base_freq(self, cpu_id: usize) -> usize {
        number_or(self.of(cpu_id).base_freq, self.max_freq(cpu_id))
    }

    pub open spec fn core_type(self, cpu_id: usize) -> CoreType {
        core_type_for(self.avg_cpu_freq, self.max_freq(cpu_id), self.base_freq(cpu_id))
    }

    /// The CPU `cpu_id` at its place.
    pub open spec fn cpu(self, cpu_id: usize, core_id: usize, llc_id: usize, node_id: usize) -> Cpu {
        Cpu {
            id: cpu_id,
            min_freq: number_or(self.of(cpu_id).min_freq, 0),
            max_freq: self.max_freq(cpu_id),
            base_freq: self.base_freq(cpu_id),
            trans_lat_ns: number_or(self.of(cpu_id).trans_lat_ns, 0),
            l2_id: number_or(self.of(cpu_id).l2_id, 0),
            l3_id: number_or(self.of(cpu_id).l3_id, 0),
            core_type: self.core_type(cpu_id),
            core_id,
            llc_id,
            node_id,
        }
    }
}

/// A node under construction, with the IDs that were given out so far.
#[verifier::ext_equal]
pub struct Build {
    pub node: NodeView,
    pub ctx: TopoCtxView,
}

impl Build {
    /// The core of `llc` with the given ID, made where `llc` has none.
    pub open spec fn core_at(
        self,
        facts: Facts,
        llc: LlcView,
        llc_id: usize,
        core_id: usize,
        core_kernel_id: usize,
        cpu_id: usize,
    ) -> CoreView {
        if llc.cores.contains_key(core_id) {
            llc.cores[core_id]
        } else {
            empty_core(
                core_id,
                core_kernel_id,
                facts.core_type(cpu_id),
                llc_id,
                self.node.id,
                facts.online.nr_cpu_ids,
            )
        }
    }

    /// The LLC of the node with the given ID, made where the node has none.
    pub open spec fn llc_at(self, facts: Facts, llc_id: usize, cpu_id: usize) -> LlcView {
        if self.node.llcs.contains_key(llc_id) {
            self.node.llcs[llc_id]
        } else {
            empty_llc(
                llc_id,
                facts.llc_kernel_id(cpu_id),
                self.node.id,
                facts.online.nr_cpu_ids,
            )
        }
    }

    /// The node with `cpu_id` put into the core and the LLC that its kernel IDs
    /// stand for. Only where `spanned` do the spans count it.
    pub open spec fn place(
        self,
        facts: Facts,
        cpu_id: usize,
        core_kernel_id: usize,
        spanned: bool,
    ) -> Build {
        let llc_key = (self.node.id, facts.llc_kernel_id(cpu_id));
        let core_key = (self.node.id, core_kernel_id);
        let llc_id = id_for(self.ctx.llcs, llc_key);
        let core_id = id_for(self.ctx.cores, core_key);
        let llc = self.llc_at(facts, llc_id, cpu_id);
        let core = self.core_at(facts, llc, llc_id, core_id, core_kernel_id, cpu_id);
        let placed_core = CoreView {
            cpus: core.cpus.insert(cpu_id, facts.cpu(cpu_id, core_id, llc_id, self.node.id)),
            span: if spanned { core.span.with(cpu_id) } else { core.span },
            ..core
        };
        let placed_llc = LlcView {
            cores: llc.cores.insert(core_id, placed_core),
            span: if spanned { llc.span.with(cpu_id) } else { llc.span },
            ..llc
        };
        Build {
            node: NodeView {
                llcs: self.node.llcs.insert(llc_id, placed_llc),
                span: if spanned { self.node.span.with(cpu_id) } else { self.node.span },
                ..self.node
            },
            ctx: TopoCtxView {
                cores: with_id(self.ctx.cores, core_key),
                llcs: with_id(self.ctx.llcs, llc_key),
            },
        }
    }

    /// Why `cpu_id` cannot be inserted: it is online and either its core is not
    /// known or the node has it already.
    pub open spec fn refusal(self, facts: Facts, cpu_id: usize) -> Option<ErrorView> {
        if !facts.online.cpus.contains(cpu_id) {
            None
        } else if facts.of(cpu_id).core_id is None {
            Some(ErrorView::CoreIdUnreadable { cpu: cpu_id })
        } else if self.node.span.cpus.contains(cpu_id) {
            Some(ErrorView::NodeHasCpu { node: self.node.id, cpu: cpu_id })
        } else {
            None
        }
    }

    /// The node once `cpu_id` was inserted, or the insertion was refused.
    pub open spec fn inserted(self, facts: Facts, cpu_id: usize) -> Build {
        if !facts.online.cpus.contains(cpu_id) {
            self
        } else {
            match facts.of(cpu_id).core_id {
                Some(core_kernel_id) => self.place(
                    facts,
                    cpu_id,
                    core_kernel_id,
                    !self.node.span.cpus.contains(cpu_id),
                ),
                None => self,
            }
        }
    }
}

impl CoreView {
    /// Whether the masks in the core have room for `nr_cpu_ids` IDs.
    pub open spec fn sized(self, nr_cpu_ids: nat) -> bool {
        self.span.nr_cpu_ids == nr_cpu_ids
    }
}

impl LlcView {
    /// Whether the masks in the LLC have room for `nr_cpu_ids` IDs.
    pub open spec fn sized(self, nr_cpu_ids: nat) -> bool {
        &&& self.span.nr_cpu_ids == nr_cpu_ids
        &&& forall|c: usize| #[trigger]
            self.cores.contains_key(c) ==> self.cores[c].sized(nr_cpu_ids)
    }
}

impl NodeView {
    /// Whether the masks in the node have room for `nr_cpu_ids` IDs.
    pub open spec fn sized(self, nr_cpu_ids: nat) -> bool {
        &&& self.span.nr_cpu_ids == nr_cpu_ids
        &&& forall|l: usize| #[trigger] self.llcs.contains_key(l) ==> self.llcs[l].sized(nr_cpu_ids)
    }
}

/// The number that was read, or else `default`.
fn read_or(read: Option<usize>, default: usize) -> (number: usize)
    ensures
        number == number_or(read, default),
{
    match read {
        Some(number) => number,
        None => default,
    }
}

/// The type of a core by the frequencies of one of its CPUs.
pub fn classify_core(
    avg_cpu_freq: Option<(usize, usize)>,
    max_freq: usize,
    base_freq: usize,
) -> (core_type: CoreType)
    ensures
        core_type == core_type_for(avg_cpu_freq, max_freq, base_freq),
        avg_cpu_freq matches Some((avg_base_freq, top_max_freq)) ==> {
            &&& core_type == CoreType::Little <==> max_freq != top_max_freq && base_freq
                < avg_base_freq
            &&& core_type == (CoreType::Big { turbo: true }) <==> max_freq == top_max_freq
            &&& core_type == (CoreType::Big { turbo: false }) <==> max_freq != top_max_freq
                && base_freq >= avg_base_freq
        },
        avg_cpu_freq is None ==> core_type == (CoreType::Big { turbo: false }),
{
    match avg_cpu_freq {
        Some((avg_base_freq, top_max_freq)) => {
            if max_freq == top_max_freq {
                CoreType::Big { turbo: true }
            } else if base_freq >= avg_base_freq {
                CoreType::Big { turbo: false }
            } else {
                CoreType::Little
            }
        },
        None => CoreType::Big { turbo: false },
    }
}

/// What sysfs says about `cpu_id`.
fn attrs_of(cpus: &BTreeMap<usize, CpuAttrs>, cpu_id: usize) -> (attrs: CpuAttrs)
    ensures
        attrs == if cpus@.contains_key(cpu_id) {
            cpus@[cpu_id]
        } else {
            CpuAttrs::none()
        },
{
    match cpus.get(&cpu_id) {
        Some(attrs) => *attrs,
        None => CpuAttrs {
            core_id: None,
            l2_id: None,
            l3_id: None,
            min_freq: None,
            max_freq: None,
            base_freq: None,
            trans_lat_ns: None,
        },
    }
}

/// Inserts a CPU into `node`, unless it is offline.
///
/// The Topology hierarchy is read-only, and assumes that hotplug will cause the
/// scheduler to restart: an offline CPU is skipped altogether.
pub fn create_insert_cpu(
    cpu_id: usize,
    cpus: &BTreeMap<usize, CpuAttrs>,
    node: &mut Node,
    online_mask: &Cpumask,
    topo_ctx: &mut TopoCtx,
    avg_cpu_freq: Option<(usize, usize)>,
    flatten_llc: bool,
) -> (result: Result<(), TopologyError>)
    requires
        old(node)@.sized(online_mask@.nr_cpu_ids),
    ensures
        ({
            let facts = Facts {
                online: online_mask@,
                attrs: cpus@,
                avg_cpu_freq,
                flatten_llc,
            };
            let before = Build { node: old(node)@, ctx: old(topo_ctx)@ };
            let after = Build { node: final(node)@, ctx: final(topo_ctx)@ };
            &&& after == before.inserted(facts, cpu_id)
            &&& match result {
                Ok(_) => before.refusal(facts, cpu_id) is None,
                Err(e) => before.refusal(facts, cpu_id) == Some(e@),
            }
        }),
        final(node)@.sized(online_mask@.nr_cpu_ids),
{
    let ghost facts = Facts {
        online: online_mask@,
        attrs: cpus@,
        avg_cpu_freq,
        flatten_llc,
    };
    let ghost before = Build { node: node@, ctx: topo_ctx@ };
    proof {
        online_mask.lemma_bounded();
    }

    if !online_mask.test_cpu(cpu_id) {
        return Ok(());
    }
    let attrs = attrs_of(cpus, cpu_id);
    // Physical core ID
    let core_kernel_id = match attrs.core_id {
        Some(id) => id,
        None => return Err(TopologyError::CoreIdUnreadable { cpu: cpu_id }),
    };

    // Use ID 0 if the cache hierarchy is not known. This happens on certain
    // SKUs, which leaves no option but to assume a single unified cache per node.
    let l2_id = read_or(attrs.l2_id, 0);
    let l3_id = read_or(attrs.l3_id, 0);
    // Assume that LLC is always 3.
    let llc_kernel_id: usize = if flatten_llc { 0 } else { l3_id };

    // If the kernel is not compiled with CONFIG_CPU_FREQ, just assume 0 for both
    // frequencies.
    let min_freq = read_or(attrs.min_freq, 0);
    let max_freq = read_or(attrs.max_freq, 0);
    let base_freq = read_or(attrs.base_freq, max_freq);
    let trans_lat_ns = read_or(attrs.trans_lat_ns, 0);
    let core_type = classify_core(avg_cpu_freq, max_freq, base_freq);
    let nr_cpu_ids = online_mask.nr_cpu_ids();

    let llc_id = give_id(&mut topo_ctx.node_llc_kernel_ids, (node.id, llc_kernel_id));
    let mut llc = match node.llcs.remove(&llc_id) {
        Some(shared) => (*shared).clone(),
        None => Llc {
            id: llc_id,
            kernel_id: llc_kernel_id,
            cores: BTreeMap::new(),
            span: Cpumask::new(nr_cpu_ids),
            node_id: node.id,
            all_cpus: BTreeMap::new(),
        },
    };
    let ghost llc_before = llc@;
    assert(llc_before == before.llc_at(facts, llc_id, cpu_id));

    let core_id = give_id(&mut topo_ctx.node_core_kernel_ids, (node.id, core_kernel_id));
    let mut core = match llc.cores.remove(&core_id) {
        Some(shared) => (*shared).clone(),
        None => Core {
            id: core_id,
            kernel_id: core_kernel_id,
            cpus: BTreeMap::new(),
            span: Cpumask::new(nr_cpu_ids),
            core_type,
            llc_id,
            node_id: node.id,
        },
    };
    let ghost core_before = core@;
    assert(core_before == before.core_at(facts, llc_before, llc_id, core_id, core_kernel_id, cpu_id));

    let cpu = Cpu {
        id: cpu_id,
        min_freq,
        max_freq,
        base_freq,
        trans_lat_ns,
        l2_id,
        l3_id,
        core_type,
        core_id,
        llc_id,
        node_id: node.id,
    };
    core.cpus.insert(cpu_id, Arc::new(cpu));

    let seen = node.span.test_cpu(cpu_id);
    if !seen {
        // Update all of the devices' spans to include this CPU.
        core.span.set_cpu(cpu_id)?;
        llc.span.set_cpu(cpu_id)?;
        node.span.set_cpu(cpu_id)?;
    }
    let ghost core_after = core@;
    llc.cores.insert(core_id, Arc::new(core));
    let ghost llc_after = llc@;
    node.llcs.insert(llc_id, Arc::new(llc));
    proof {
        let cpu_after = facts.cpu(cpu_id, core_id, llc_id, before.node.id);
        assert(core_after.cpus =~= core_before.cpus.insert(cpu_id, cpu_after));
        assert(llc_after.cores =~= llc_before.cores.insert(core_id, core_after));
        assert(node@.llcs =~= before.node.llcs.insert(llc_id, llc_after));
        assert(Build { node: node@, ctx: topo_ctx@ } =~= before.inserted(facts, cpu_id));
        assert(llc_before.sized(online_mask@.nr_cpu_ids));
        assert(llc_after.sized(online_mask@.nr_cpu_ids));
    }
    if seen {
        Err(TopologyError::NodeHasCpu { node: node.id, cpu: cpu_id })
    } else {
        Ok(())
    }
}

impl Build {
    /// What comes of inserting CPUs one after the other: the node and the IDs,
    /// and the first error, which ends it. An item is the ID of a CPU, or the
    /// error in place of one.
    pub open spec fn filled(self, facts: Facts, items: Seq<Result<usize, ErrorView>>) -> (
        Build,
        Option<ErrorView>,
    )
        decreases items.len(),
    {
        if items.len() == 0 {
            (self, None)
        } else {
            let (build, error) = self.filled(facts, items.drop_last());
            if error is Some {
                (build, error)
            } else {
                match items.last() {
                    Ok(cpu_id) => (build.inserted(facts, cpu_id), build.refusal(facts, cpu_id)),
                    Err(e) => (build, Some(e)),
                }
            }
        }
    }

    proof fn lemma_filled_error(
        self,
        facts: Facts,
        items: Seq<Result<usize, ErrorView>>,
        k: int,
    )
        requires
            0 <= k <= items.len(),
            self.filled(facts, items.take(k)).1 is Some,
        ensures
            self.filled(facts, items) == self.filled(facts, items.take(k)),
        decreases items.len(),
    {
        if k == items.len() {
            assert(items.take(k) == items);
        } else {
            assert(items.drop_last().take(k) == items.take(k));
            self.lemma_filled_error(facts, items.drop_last(), k);
        }
    }
}

/// The GPUs of a list by their index. Of two with the same index the later one
/// counts.
pub open spec fn gpus_by_index(gpus: Seq<Gpu>) -> Map<GpuIndex, Gpu>
    decreases gpus.len(),
{
    if gpus.len() == 0 {
        Map::empty()
    } else {
        gpus_by_index(gpus.drop_last()).insert(gpus.last().index, gpus.last())
    }
}

/// The GPUs of a node by their index.
pub open spec fn gpus_of_node(gpus: Map<usize, Vec<Gpu>>, node_id: usize) -> Map<GpuIndex, Gpu> {
    if gpus.contains_key(node_id) {
        gpus_by_index(gpus[node_id]@)
    } else {
        Map::empty()
    }
}

/// A node without an LLC.
pub open spec fn empty_node(id: usize, nr_cpu_ids: nat, gpus: Map<GpuIndex, Gpu>) -> NodeView {
    NodeView {
        id,
        llcs: Map::empty(),
        span: CpumaskView::none(nr_cpu_ids),
        all_cores: Map::empty(),
        all_cpus: Map::empty(),
        gpus,
    }
}

/// Makes a node without an LLC.
fn new_node(id: usize, nr_cpu_ids: usize, system_gpus: &BTreeMap<usize, Vec<Gpu>>) -> (node: Node)
    ensures
        node@ == empty_node(id, nr_cpu_ids as nat, gpus_of_node(system_gpus@, id)),
{
    let mut gpus: BTreeMap<GpuIndex, Gpu> = BTreeMap::new();
    match system_gpus.get(&id) {
        Some(list) => {
            let mut k: usize = 0;
            while k < list.len()
                invariant
                    k <= list.len(),
                    gpus@ == gpus_by_index(list@.take(k as int)),
                decreases list.len() - k,
            {
                proof {
                    let next = list@.take(k + 1);
                    assert(next.drop_last() == list@.take(k as int));
                    assert(next.last() == list@[k as int]);
                }
                gpus.insert(list[k].index, list[k]);
                k = k + 1;
            }
            assert(list@.take(k as int) == list@);
        },
        None => {},
    }
    let node = Node {
        id,
        llcs: BTreeMap::new(),
        span: Cpumask::new(nr_cpu_ids),
        all_cores: BTreeMap::new(),
        all_cpus: BTreeMap::new(),
        gpus,
    };
    assert(node@ =~= empty_node(id, nr_cpu_ids as nat, gpus_of_node(system_gpus@, id)));
    node
}

/// What the CPUs of the host are put in place by.
pub open spec fn facts_of(sys: Sysfs, online: CpumaskView, flatten_llc: bool) -> Facts {
    Facts {
        online,
        attrs: sys.cpus@,
        avg_cpu_freq: sysfs::average_freq(sys.cpu_dirs@),
        flatten_llc,
    }
}

/// Nodes, the IDs that were given out for them, and the error that ended it, if
/// there was one.
#[verifier::ext_equal]
pub struct Nodes {
    pub nodes: Map<usize, NodeView>,
    pub ctx: TopoCtxView,
    pub error: Option<ErrorView>,
}

/// IDs of CPUs as the items that a node is filled from.
pub open spec fn ids_as_items(ids: Seq<usize>) -> Seq<Result<usize, ErrorView>> {
    ids.map_values(|id: usize| Ok::<usize, ErrorView>(id))
}

/// The single node 0 that holds all CPUs.
pub open spec fn default_node(
    sys: Sysfs,
    online: CpumaskView,
    ctx: TopoCtxView,
    flatten_llc: bool,
) -> Nodes {
    if !sys.has_cpu_dir {
        Nodes { nodes: Map::empty(), ctx, error: Some(ErrorView::NoCpuDirectory) }
    } else {
        match sysfs::cpu_ids(sys.cpu_dirs@) {
            Err(e) => Nodes { nodes: Map::empty(), ctx, error: Some(e) },
            Ok(ids) => {
                let node = empty_node(0, online.nr_cpu_ids, gpus_of_node(sys.gpus@, 0));
                let (build, error) = Build { node, ctx }.filled(
                    facts_of(sys, online, flatten_llc),
                    ids_as_items(ids),
                );
                Nodes {
                    nodes: if error is Some {
                        Map::empty()
                    } else {
                        Map::empty().insert(0, build.node)
                    },
                    ctx: build.ctx,
                    error,
                }
            },
        }
    }
}

/// The CPU that a path in the directory of a NUMA node stands for.
pub open spec fn node_item(path: Seq<char>) -> Result<usize, ErrorView> {
    match sysfs::node_cpu_id(path) {
        Some(id) => Ok(id),
        None => Err(ErrorView::ParseCpuId { path: text::trimmed(path) }),
    }
}

/// The CPUs that the directory of a NUMA node lists.
pub open spec fn node_items(dir: NodeDir) -> Seq<Result<usize, ErrorView>> {
    dir.cpu_paths@.map_values(|path: String| node_item(path@))
}

/// The nodes for the given directories of NUMA nodes.
pub open spec fn numa_nodes(
    sys: Sysfs,
    dirs: Seq<NodeDir>,
    online: CpumaskView,
    ctx: TopoCtxView,
) -> Nodes
    decreases dirs.len(),
{
    if dirs.len() == 0 {
        Nodes { nodes: Map::empty(), ctx, error: None }
    } else {
        let before = numa_nodes(sys, dirs.drop_last(), online, ctx);
        if before.error is Some {
            before
        } else {
            match sysfs::node_dir_id(dirs.last().path@) {
                None => Nodes {
                    error: Some(
                        ErrorView::ParseNodeId { path: text::trimmed(dirs.last().path@) },
                    ),
                    ..before
                },
                Some(id) => {
                    let node = empty_node(id, online.nr_cpu_ids, gpus_of_node(sys.gpus@, id));
                    let (build, error) = Build { node, ctx: before.ctx }.filled(
                        facts_of(sys, online, false),
                        node_items(dirs.last()),
                    );
                    Nodes {
                        nodes: if error is Some {
                            before.nodes
                        } else {
                            before.nodes.insert(id, build.node)
                        },
                        ctx: build.ctx,
                        error,
                    }
                },
            }
        }
    }
}

proof fn lemma_numa_error(
    sys: Sysfs,
    dirs: Seq<NodeDir>,
    k: int,
    online: CpumaskView,
    ctx: TopoCtxView,
)
    requires
        0 <= k <= dirs.len(),
        numa_nodes(sys, dirs.take(k), online, ctx).error is Some,
    ensures
        numa_nodes(sys, dirs, online, ctx) == numa_nodes(sys, dirs.take(k), online, ctx),
    decreases dirs.len(),
{
    if k == dirs.len() {
        assert(dirs.take(k) == dirs);
    } else {
        assert(dirs.drop_last().take(k) == dirs.take(k));
        lemma_numa_error(sys, dirs.drop_last(), k, online, ctx);
    }
}

/// Makes the single node 0 that holds all CPUs.
pub fn create_default_node(
    sys: &Sysfs,
    online_mask: &Cpumask,
    topo_ctx: &mut TopoCtx,
    flatten_llc: bool,
) -> (result: Result<BTreeMap<usize, Node>, TopologyError>)
    requires
        sys.has_cpu_dir ==> sysfs::base_sum(sys.cpu_dirs@) <= usize::MAX,
    ensures
        ({
            let made = default_node(*sys, online_mask@, old(topo_ctx)@, flatten_llc);
            &&& final(topo_ctx)@ == made.ctx
            &&& match result {
                Ok(nodes) => made.error is None && hierarchy::nodes_view(nodes@) == made.nodes,
                Err(e) => made.error == Some(e@),
            }
        }),
{
    let mut node = new_node(0, online_mask.nr_cpu_ids(), &sys.gpus);
    if !sys.has_cpu_dir {
        return Err(TopologyError::NoCpuDirectory);
    }
    let avg_cpu_freq = sysfs::avg_cpu_freq(&sys.cpu_dirs);
    let cpu_ids = match sysfs::read_cpu_ids(&sys.cpu_dirs) {
        Ok(ids) => ids,
        Err(e) => return Err(e),
    };
    let ghost facts = facts_of(*sys, online_mask@, flatten_llc);
    let ghost items = ids_as_items(cpu_ids@);
    let ghost start = Build { node: node@, ctx: topo_ctx@ };
    let mut k: usize = 0;
    while k < cpu_ids.len()
        invariant
            k <= cpu_ids.len(),
            facts == facts_of(*sys, online_mask@, flatten_llc),
            avg_cpu_freq == sysfs::average_freq(sys.cpu_dirs@),
            sys.has_cpu_dir,
            sysfs::cpu_ids(sys.cpu_dirs@) == Ok::<_, ErrorView>(cpu_ids@),
            items == ids_as_items(cpu_ids@),
            start == (Build {
                node: empty_node(0, online_mask@.nr_cpu_ids, gpus_of_node(sys.gpus@, 0)),
                ctx: old(topo_ctx)@,
            }),
            node.id == 0,
            node@.sized(online_mask@.nr_cpu_ids),
            start.filled(facts, items.take(k as int)) == (
                Build { node: node@, ctx: topo_ctx@ },
                None::<ErrorView>,
            ),
        decreases cpu_ids.len() - k,
    {
        proof {
            let next = items.take(k + 1);
            assert(next.drop_last() == items.take(k as int));
            assert(next.last() == Ok::<usize, ErrorView>(cpu_ids@[k as int]));
        }
        match create_insert_cpu(
            cpu_ids[k],
            &sys.cpus,
            &mut node,
            online_mask,
            topo_ctx,
            avg_cpu_freq,
            flatten_llc,
        ) {
            Ok(_) => {},
            Err(e) => {
                proof {
                    start.lemma_filled_error(facts, items, k + 1);
                }
                return Err(e);
            },
        }
        k = k + 1;
    }
    assert(items.take(k as int) == items);
    let ghost made = node@;
    let mut nodes: BTreeMap<usize, Node> = BTreeMap::new();
    nodes.insert(node.id, node);
    assert(hierarchy::nodes_view(nodes@) =~= Map::empty().insert(0, made));
    Ok(nodes)
}

/// Inserts the CPUs that the directory of a NUMA node lists.
fn fill_numa_node(
    sys: &Sysfs,
    dir: &NodeDir,
    node: &mut Node,
    online_mask: &Cpumask,
    topo_ctx: &mut TopoCtx,
    avg_cpu_freq: Option<(usize, usize)>,
) -> (result: Result<(), TopologyError>)
    requires
        avg_cpu_freq == sysfs::average_freq(sys.cpu_dirs@),
        old(node)@.sized(online_mask@.nr_cpu_ids),
    ensures
        final(node).id == old(node).id,
        ({
            let (build, error) = Build { node: old(node)@, ctx: old(topo_ctx)@ }.filled(
                facts_of(*sys, online_mask@, false),
                node_items(*dir),
            );
            &&& Build { node: final(node)@, ctx: final(topo_ctx)@ } == build
            &&& match result {
                Ok(_) => error is None,
                Err(e) => error == Some(e@),
            }
        }),
{
    let ghost facts = facts_of(*sys, online_mask@, false);
    let ghost items = node_items(*dir);
    let ghost start = Build { node: node@, ctx: topo_ctx@ };
    let mut k: usize = 0;
    while k < dir.cpu_paths.len()
        invariant
            k <= dir.cpu_paths.len(),
            facts == facts_of(*sys, online_mask@, false),
            items == node_items(*dir),
            avg_cpu_freq == sysfs::average_freq(sys.cpu_dirs@),
            start == (Build { node: old(node)@, ctx: old(topo_ctx)@ }),
            node.id == old(node).id,
            node@.sized(online_mask@.nr_cpu_ids),
            start.filled(facts, items.take(k as int)) == (
                Build { node: node@, ctx: topo_ctx@ },
                None::<ErrorView>,
            ),
        decreases dir.cpu_paths.len() - k,
    {
        let path = dir.cpu_paths[k].as_str();
        proof {
            let next = items.take(k + 1);
            assert(next.drop_last() == items.take(k as int));
            assert(next.last() == node_item(path@));
        }
        let cpu_id = match sysfs::scan_node_cpu(path) {
            Some(id) => id,
            None => {
                proof {
                    start.lemma_filled_error(facts, items, k + 1);
                }
                return Err(TopologyError::ParseCpuId { path: text::trim(path).to_owned() });
            },
        };
        match create_insert_cpu(
            cpu_id,
            &sys.cpus,
            node,
            online_mask,
            topo_ctx,
            avg_cpu_freq,
            false,
        ) {
            Ok(_) => {},
            Err(e) => {
                proof {
                    start.lemma_filled_error(facts, items, k + 1);
                }
                return Err(e);
            },
        }
        k = k + 1;
    }
    assert(items.take(k as int) == items);
    Ok(())
}

/// Makes a node for each directory of a NUMA node.
pub fn create_numa_nodes(
    sys: &Sysfs,
    online_mask: &Cpumask,
    topo_ctx: &mut TopoCtx,
) -> (result: Result<BTreeMap<usize, Node>, TopologyError>)
    requires
        sys.node_dirs.len() > 0 && sysfs::node_dir_id(sys.node_dirs[0].path@) is Some
            ==> sysfs::base_sum(sys.cpu_dirs@) <= usize::MAX,
    ensures
        ({
            let made = numa_nodes(*sys, sys.node_dirs@, online_mask@, old(topo_ctx)@);
            &&& final(topo_ctx)@ == made.ctx
            &&& match result {
                Ok(nodes) => made.error is None && hierarchy::nodes_view(nodes@) == made.nodes,
                Err(e) => made.error == Some(e@),
            }
        }),
{
    let mut nodes: BTreeMap<usize, Node> = BTreeMap::new();
    let ghost dirs = sys.node_dirs@;
    let ghost start = topo_ctx@;
    let mut k: usize = 0;
    assert(hierarchy::nodes_view(nodes@) =~= Map::empty());
    while k < sys.node_dirs.len()
        invariant
            k <= sys.node_dirs.len(),
            dirs == sys.node_dirs@,
            start == old(topo_ctx)@,
            dirs.len() > 0 && sysfs::node_dir_id(dirs[0].path@) is Some ==> sysfs::base_sum(
                sys.cpu_dirs@,
            ) <= usize::MAX,
            k > 0 ==> sysfs::node_dir_id(dirs[0].path@) is Some,
            numa_nodes(*sys, dirs.take(k as int), online_mask@, start) == (Nodes {
                nodes: hierarchy::nodes_view(nodes@),
                ctx: topo_ctx@,
                error: None,
            }),
        decreases sys.node_dirs.len() - k,
    {
        let dir = &sys.node_dirs[k];
        let ghost next = dirs.take(k + 1);
        proof {
            assert(next.drop_last() == dirs.take(k as int));
            assert(next.last() == *dir);
        }
        let node_id = match sysfs::scan_node_dir(dir.path.as_str()) {
            Some(id) => id,
            None => {
                proof {
                    lemma_numa_error(*sys, dirs, k + 1, online_mask@, start);
                }
                let path = text::trim(dir.path.as_str()).to_owned();
                return Err(TopologyError::ParseNodeId { path });
            },
        };
        let mut node = new_node(node_id, online_mask.nr_cpu_ids(), &sys.gpus);
        let avg_cpu_freq = sysfs::avg_cpu_freq(&sys.cpu_dirs);
        match fill_numa_node(sys, dir, &mut node, online_mask, topo_ctx, avg_cpu_freq) {
            Ok(_) => {},
            Err(e) => {
                proof {
                    lemma_numa_error(*sys, dirs, k + 1, online_mask@, start);
                }
                return Err(e);
            },
        }
        let ghost before = hierarchy::nodes_view(nodes@);
        let ghost made = node@;
        nodes.insert(node.id, node);
        assert(hierarchy::nodes_view(nodes@) =~= before.insert(node_id, made));
        k = k + 1;
    }
    assert(dirs.take(k as int) == dirs);
    Ok(nodes)
}

} // verus!
