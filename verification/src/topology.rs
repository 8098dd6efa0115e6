//! The topology of a host, with skip indices to the members of its nodes.

use crate::bits::{repeat_bit, set_bit, CpuBits};
use crate::builder;
use crate::builder::{Nodes, TopoCtx, TopoCtxView};
use crate::cpumask::{Cpumask, CpumaskView};
use crate::error::{ErrorView, TopologyError};
use crate::hierarchy;
use crate::hierarchy::{
    share, Core, CoreType, CoreView, Cpu, Gpu, GpuIndex, Llc, LlcView, Node, NodeView,
};
use crate::laws;
use crate::order;
use crate::order::sorted_keys;
use crate::sysfs;
use crate::sysfs::Sysfs;
use std::collections::BTreeMap;
use std::sync::Arc;
use vstd::prelude::*;

verus! {

broadcast use vstd::laws_cmp::group_laws_cmp;

/// The topology of a host.
#[derive(Debug)]
pub struct Topology {
    pub nodes: BTreeMap<usize, Node>,
    /// Cpumask all CPUs in the system.
    pub span: Cpumask,
    pub nr_cpus_online: usize,
    /// Skip indices to access lower level members easily.
    pub all_llcs: BTreeMap<usize, Arc<Llc>>,
    pub all_cores: BTreeMap<usize, Arc<Core>>,
    pub all_cpus: BTreeMap<usize, Arc<Cpu>>,
}

/// What a [`Topology`] stands for.
#[verifier::ext_equal]
pub struct TopologyView {
    pub nodes: Map<usize, NodeView>,
    pub span: CpumaskView,
    pub nr_cpus_online: usize,
    pub all_llcs: Map<usize, LlcView>,
    pub all_cores: Map<usize, CoreView>,
    pub all_cpus: Map<usize, Cpu>,
}

impl View for Topology {
    type V = TopologyView;

    open spec fn view(&self) -> TopologyView {
        TopologyView {
            nodes: hierarchy::nodes_view(self.nodes@),
            span: self.span@,
            nr_cpus_online: self.nr_cpus_online,
            all_llcs: hierarchy::llcs_view(self.all_llcs@),
            all_cores: hierarchy::cores_view(self.all_cores@),
            all_cpus: hierarchy::cpus_view(self.all_cpus@),
        }
    }
}

/// The entries of the parts of `keys` together, one part after the other.
pub open spec fn gather<V>(keys: Seq<usize>, part: spec_fn(usize) -> Map<usize, V>) -> Map<usize, V>
    decreases keys.len(),
{
    if keys.len() == 0 {
        Map::empty()
    } else {
        gather(keys.drop_last(), part).union_prefer_right(part(keys.last()))
    }
}

/// The name under which a member of the hierarchy is known: no two members of a
/// topology share one.
pub enum Member {
    Cpu(usize),
    Core(usize),
    Llc(usize),
}

/// The members in the parts of `keys`, one part after the other.
pub open spec fn chain(keys: Seq<usize>, part: spec_fn(usize) -> Seq<Member>) -> Seq<Member>
    decreases keys.len(),
{
    if keys.len() == 0 {
        Seq::empty()
    } else {
        chain(keys.drop_last(), part) + part(keys.last())
    }
}

impl CoreView {
    /// The members that the core `id` consists of, ending with itself.
    pub open spec fn members(self, id: usize) -> Seq<Member> {
        order::sorted(self.cpus.dom()).map_values(|cpu: usize| Member::Cpu(cpu)).push(
            Member::Core(id),
        )
    }
}

impl LlcView {
    /// The CPUs of all cores in the LLC.
    pub open spec fn every_cpu(self) -> Map<usize, Cpu> {
        gather(order::sorted(self.cores.dom()), |c: usize| self.cores[c].cpus)
    }

    /// The members that the LLC `id` consists of, ending with itself.
    pub open spec fn members(self, id: usize) -> Seq<Member> {
        chain(order::sorted(self.cores.dom()), |c: usize| self.cores[c].members(c)).push(
            Member::Llc(id),
        )
    }

    /// The LLC with its skip index.
    pub open spec fn indexed(self) -> LlcView {
        LlcView { all_cpus: self.every_cpu(), ..self }
    }
}

impl NodeView {
    /// The cores of all LLCs in the node.
    pub open spec fn every_core(self) -> Map<usize, CoreView> {
        gather(order::sorted(self.llcs.dom()), |l: usize| self.llcs[l].cores)
    }

    /// The CPUs of all LLCs in the node.
    pub open spec fn every_cpu(self) -> Map<usize, Cpu> {
        gather(order::sorted(self.llcs.dom()), |l: usize| self.llcs[l].every_cpu())
    }

    /// The members that the node consists of.
    pub open spec fn members(self) -> Seq<Member> {
        chain(order::sorted(self.llcs.dom()), |l: usize| self.llcs[l].members(l))
    }

    /// The node with its skip indices and those of its LLCs.
    pub open spec fn indexed(self) -> NodeView {
        NodeView {
            llcs: self.llcs.map_values(|llc: LlcView| llc.indexed()),
            all_cores: self.every_core(),
            all_cpus: self.every_cpu(),
            ..self
        }
    }
}

/// The members that the nodes consist of.
pub open spec fn members_of(nodes: Map<usize, NodeView>) -> Seq<Member> {
    chain(order::sorted(nodes.dom()), |n: usize| nodes[n].members())
}

/// The topology that consists of `nodes`, with all skip indices.
pub open spec fn indexed(span: CpumaskView, nodes: Map<usize, NodeView>) -> TopologyView {
    let keys = order::sorted(nodes.dom());
    TopologyView {
        nodes: nodes.map_values(|node: NodeView| node.indexed()),
        span,
        nr_cpus_online: span.cpus.len() as usize,
        all_llcs: gather(keys, |n: usize| nodes[n].indexed().llcs),
        all_cores: gather(keys, |n: usize| nodes[n].every_core()),
        all_cpus: gather(keys, |n: usize| nodes[n].every_cpu()),
    }
}

/// The first of `members` that was seen before: in `seen`, or earlier among
/// `members`.
pub open spec fn first_clash(seen: Set<Member>, members: Seq<Member>) -> Option<Member>
    decreases members.len(),
{
    if members.len() == 0 {
        None
    } else if seen.contains(members[0]) {
        Some(members[0])
    } else {
        first_clash(seen.insert(members[0]), members.skip(1))
    }
}

/// The error that a member which comes up twice is.
pub open spec fn clash_error(member: Member) -> ErrorView {
    match member {
        Member::Cpu(id) => ErrorView::DuplicateCpu { id },
        Member::Core(id) => ErrorView::DuplicateCore { id },
        Member::Llc(id) => ErrorView::DuplicateLlc { id },
    }
}

/// What comes of putting nodes together: a topology, or the error that the first
/// member which comes up twice is.
pub open spec fn assembled(span: CpumaskView, nodes: Map<usize, NodeView>) -> Result<
    TopologyView,
    ErrorView,
> {
    match first_clash(Set::empty(), members_of(nodes)) {
        Some(member) => Err(clash_error(member)),
        None => Ok(indexed(span, nodes)),
    }
}

/// Clashes in two parts: those of the first, then those of the second with the
/// members of the first seen.
pub proof fn lemma_clash_concat(seen: Set<Member>, a: Seq<Member>, b: Seq<Member>)
    ensures
        first_clash(seen, a + b) == match first_clash(seen, a) {
            Some(member) => Some(member),
            None => first_clash(seen.union(a.to_set()), b),
        },
    decreases a.len(),
{
    if a.len() == 0 {
        assert(a + b == b);
        assert(seen.union(a.to_set()) =~= seen);
    } else {
        assert((a + b)[0] == a[0]);
        assert((a + b).skip(1) == a.skip(1) + b);
        if !seen.contains(a[0]) {
            lemma_clash_concat(seen.insert(a[0]), a.skip(1), b);
            assert(seen.insert(a[0]).union(a.skip(1).to_set()) =~= seen.union(a.to_set())) by {
                assert forall|m: Member|
                    seen.insert(a[0]).union(a.skip(1).to_set()).contains(m) == seen.union(
                        a.to_set(),
                    ).contains(m) by {
                    if a.contains(m) && m != a[0] {
                        let i = choose|i: int| 0 <= i < a.len() && a[i] == m;
                        assert(a.skip(1)[i - 1] == m);
                    }
                    if a.skip(1).contains(m) {
                        let i = choose|i: int| 0 <= i < a.skip(1).len() && a.skip(1)[i] == m;
                        assert(a[i + 1] == m);
                    }
                    assert(a.contains(a[0]));
                }
            }
        }
    }
}

/// A single member clashes where it was seen.
proof fn lemma_clash_one(seen: Set<Member>, member: Member)
    ensures
        first_clash(seen, seq![member]) == if seen.contains(member) {
            Some(member)
        } else {
            None
        },
{
    let one = seq![member];
    assert(one.skip(1) == Seq::<Member>::empty());
    reveal_with_fuel(first_clash, 2);
}

/// The skip indices of a topology while they are filled.
struct Skip {
    llcs: BTreeMap<usize, Arc<Llc>>,
    cores: BTreeMap<usize, Arc<Core>>,
    cpus: BTreeMap<usize, Arc<Cpu>>,
}

#[verifier::ext_equal]
struct SkipView {
    llcs: Map<usize, LlcView>,
    cores: Map<usize, CoreView>,
    cpus: Map<usize, Cpu>,
}

impl Skip {
    spec fn view(&self) -> SkipView {
        SkipView {
            llcs: hierarchy::llcs_view(self.llcs@),
            cores: hierarchy::cores_view(self.cores@),
            cpus: hierarchy::cpus_view(self.cpus@),
        }
    }
}

impl SkipView {
    /// The members that are in the indices.
    spec fn seen(self) -> Set<Member> {
        Set::new(
            |member: Member|
                match member {
                    Member::Cpu(id) => self.cpus.contains_key(id),
                    Member::Core(id) => self.cores.contains_key(id),
                    Member::Llc(id) => self.llcs.contains_key(id),
                },
        )
    }
}

/// Enters the CPUs of a core. Fails on the first that is there already.
fn index_cpus(
    core: &Core,
    topo: &mut Skip,
    node_cpus: &mut BTreeMap<usize, Arc<Cpu>>,
    llc_cpus: &mut BTreeMap<usize, Arc<Cpu>>,
) -> (result: Result<(), TopologyError>)
    ensures
        ({
            let members = order::sorted(core@.cpus.dom()).map_values(
                |cpu: usize| Member::Cpu(cpu),
            );
            match result {
                Ok(_) => {
                    &&& first_clash(old(topo)@.seen(), members) is None
                    &&& final(topo)@ == (SkipView {
                        cpus: old(topo)@.cpus.union_prefer_right(core@.cpus),
                        ..old(topo)@
                    })
                    &&& final(topo)@.seen() == old(topo)@.seen().union(members.to_set())
                    &&& hierarchy::cpus_view(final(node_cpus)@) == hierarchy::cpus_view(
                        old(node_cpus)@,
                    ).union_prefer_right(core@.cpus)
                    &&& hierarchy::cpus_view(final(llc_cpus)@) == hierarchy::cpus_view(
                        old(llc_cpus)@,
                    ).union_prefer_right(core@.cpus)
                },
                Err(e) => first_clash(old(topo)@.seen(), members) matches Some(member) && e@
                    == clash_error(member),
            }
        }),
{
    let ids = sorted_keys(&core.cpus);
    let ghost named = |cpu: usize| Member::Cpu(cpu);
    let ghost members = ids@.map_values(named);
    let ghost cpus = core@.cpus;
    let ghost seen = topo@.seen();
    assert(cpus.dom() =~= core.cpus@.dom());
    let mut k: usize = 0;
    proof {
        let none = cpus.restrict(ids@.take(0).to_set());
        assert(none =~= Map::empty());
        assert(topo@.cpus.union_prefer_right(none) =~= topo@.cpus);
        assert(hierarchy::cpus_view(node_cpus@).union_prefer_right(none) =~= hierarchy::cpus_view(
            node_cpus@,
        ));
        assert(hierarchy::cpus_view(llc_cpus@).union_prefer_right(none) =~= hierarchy::cpus_view(
            llc_cpus@,
        ));
        assert(seen.union(members.take(0).to_set()) =~= seen);
    }
    while k < ids.len()
        invariant
            k <= ids.len(),
            cpus == core@.cpus,
            cpus.dom() == core.cpus@.dom(),
            ids@ == order::sorted(cpus.dom()),
            order::ascending(ids@),
            forall|i: int| 0 <= i < ids.len() ==> core.cpus@.contains_key(#[trigger] ids@[i]),
            named == (|cpu: usize| Member::Cpu(cpu)),
            members == ids@.map_values(named),
            seen == old(topo)@.seen(),
            first_clash(seen, members.take(k as int)) is None,
            topo@.seen() == seen.union(members.take(k as int).to_set()),
            topo@.llcs == old(topo)@.llcs,
            topo@.cores == old(topo)@.cores,
            topo@.cpus == old(topo)@.cpus.union_prefer_right(
                cpus.restrict(ids@.take(k as int).to_set()),
            ),
            hierarchy::cpus_view(node_cpus@) == hierarchy::cpus_view(
                old(node_cpus)@,
            ).union_prefer_right(cpus.restrict(ids@.take(k as int).to_set())),
            hierarchy::cpus_view(llc_cpus@) == hierarchy::cpus_view(
                old(llc_cpus)@,
            ).union_prefer_right(cpus.restrict(ids@.take(k as int).to_set())),
        decreases ids.len() - k,
    {
        let id = ids[k];
        let ghost before = topo@;
        let ghost done = ids@.take(k as int).to_set();
        proof {
            let next = members.take(k + 1);
            assert(next == members.take(k as int) + seq![Member::Cpu(id)]);
            lemma_clash_concat(seen, members.take(k as int), seq![Member::Cpu(id)]);
            lemma_clash_one(topo@.seen(), Member::Cpu(id));
            assert(members == next + members.skip(k + 1));
            lemma_clash_concat(seen, next, members.skip(k + 1));
            lemma_take_next(ids@, k as int);
            lemma_take_next(members, k as int);
        }
        match core.cpus.get(&id) {
            Some(cpu) => {
                let ghost node_before = hierarchy::cpus_view(node_cpus@);
                let ghost llc_before = hierarchy::cpus_view(llc_cpus@);
                let known = topo.cpus.insert(id, share(cpu));
                node_cpus.insert(id, share(cpu));
                llc_cpus.insert(id, share(cpu));
                if known.is_some() {
                    return Err(TopologyError::DuplicateCpu { id });
                }
                proof {
                    assert(**cpu == cpus[id]);
                    assert(topo@.cpus =~= before.cpus.insert(id, cpus[id]));
                    assert(topo@.cpus =~= old(topo)@.cpus.union_prefer_right(
                        cpus.restrict(done.insert(id)),
                    ));
                    assert(hierarchy::cpus_view(node_cpus@) =~= node_before.insert(id, cpus[id]));
                    assert(hierarchy::cpus_view(node_cpus@) =~= hierarchy::cpus_view(
                        old(node_cpus)@,
                    ).union_prefer_right(cpus.restrict(done.insert(id))));
                    assert(hierarchy::cpus_view(llc_cpus@) =~= llc_before.insert(id, cpus[id]));
                    assert(hierarchy::cpus_view(llc_cpus@) =~= hierarchy::cpus_view(
                        old(llc_cpus)@,
                    ).union_prefer_right(cpus.restrict(done.insert(id))));
                    assert(topo@.seen() =~= before.seen().insert(Member::Cpu(id)));
                    assert(topo@.seen() =~= seen.union(
                        members.take(k as int).to_set().insert(Member::Cpu(id)),
                    ));
                }
            },
            None => {
                assert(false);
            },
        }
        k = k + 1;
    }
    proof {
        assert(ids@.take(k as int) == ids@);
        assert(members.take(k as int) == members);
        assert(cpus.restrict(ids@.to_set()) =~= cpus);
        assert(topo@ =~= (SkipView {
            cpus: old(topo)@.cpus.union_prefer_right(cpus),
            ..old(topo)@
        }));
    }
    Ok(())
}

/// Enters a core with its CPUs. Fails on the first member that is there already.
fn index_core(
    core_id: usize,
    core: &Arc<Core>,
    topo: &mut Skip,
    node_cores: &mut BTreeMap<usize, Arc<Core>>,
    node_cpus: &mut BTreeMap<usize, Arc<Cpu>>,
    llc_cpus: &mut BTreeMap<usize, Arc<Cpu>>,
) -> (result: Result<(), TopologyError>)
    ensures
        ({
            let members = core@.members(core_id);
            match result {
                Ok(_) => {
                    &&& first_clash(old(topo)@.seen(), members) is None
                    &&& final(topo)@ == (SkipView {
                        cpus: old(topo)@.cpus.union_prefer_right(core@.cpus),
                        cores: old(topo)@.cores.insert(core_id, core@),
                        ..old(topo)@
                    })
                    &&& final(topo)@.seen() == old(topo)@.seen().union(members.to_set())
                    &&& hierarchy::cores_view(final(node_cores)@) == hierarchy::cores_view(
                        old(node_cores)@,
                    ).insert(core_id, core@)
                    &&& hierarchy::cpus_view(final(node_cpus)@) == hierarchy::cpus_view(
                        old(node_cpus)@,
                    ).union_prefer_right(core@.cpus)
                    &&& hierarchy::cpus_view(final(llc_cpus)@) == hierarchy::cpus_view(
                        old(llc_cpus)@,
                    ).union_prefer_right(core@.cpus)
                },
                Err(e) => first_clash(old(topo)@.seen(), members) matches Some(member) && e@
                    == clash_error(member),
            }
        }),
{
    let ghost seen = topo@.seen();
    let ghost below = order::sorted(core@.cpus.dom()).map_values(|cpu: usize| Member::Cpu(cpu));
    let ghost itself = seq![Member::Core(core_id)];
    proof {
        assert(core@.members(core_id) == below + itself);
        lemma_clash_concat(seen, below, itself);
    }
    match index_cpus(core, topo, node_cpus, llc_cpus) {
        Ok(_) => {},
        Err(e) => return Err(e),
    }
    let ghost before = topo@;
    let ghost cores_before = hierarchy::cores_view(node_cores@);
    proof {
        lemma_clash_one(before.seen(), Member::Core(core_id));
    }
    let known = topo.cores.insert(core_id, share(core));
    node_cores.insert(core_id, share(core));
    if known.is_some() {
        return Err(TopologyError::DuplicateCore { id: core_id });
    }
    proof {
        assert(topo@.cores =~= before.cores.insert(core_id, core@));
        assert(hierarchy::cores_view(node_cores@) =~= cores_before.insert(core_id, core@));
        assert(topo@.seen() =~= before.seen().insert(Member::Core(core_id)));
        lemma_take_next(core@.members(core_id), below.len() as int);
        assert(core@.members(core_id).take(below.len() as int) == below);
        assert(core@.members(core_id).take(below.len() as int + 1) == core@.members(core_id));
        assert(topo@.seen() =~= seen.union(core@.members(core_id).to_set()));
    }
    Ok(())
}

/// Enters an LLC with its cores and CPUs, and gives it its own skip index. Fails
/// on the first member that is there already.
fn index_llc(
    llc_id: usize,
    mut llc: Llc,
    topo: &mut Skip,
    node_cores: &mut BTreeMap<usize, Arc<Core>>,
    node_cpus: &mut BTreeMap<usize, Arc<Cpu>>,
) -> (result: Result<Arc<Llc>, TopologyError>)
    ensures
        ({
            let members = llc@.members(llc_id);
            match result {
                Ok(shared) => {
                    &&& first_clash(old(topo)@.seen(), members) is None
                    &&& shared@ == llc@.indexed()
                    &&& final(topo)@ == (SkipView {
                        llcs: old(topo)@.llcs.insert(llc_id, llc@.indexed()),
                        cores: old(topo)@.cores.union_prefer_right(llc@.cores),
                        cpus: old(topo)@.cpus.union_prefer_right(llc@.every_cpu()),
                    })
                    &&& final(topo)@.seen() == old(topo)@.seen().union(members.to_set())
                    &&& hierarchy::cores_view(final(node_cores)@) == hierarchy::cores_view(
                        old(node_cores)@,
                    ).union_prefer_right(llc@.cores)
                    &&& hierarchy::cpus_view(final(node_cpus)@) == hierarchy::cpus_view(
                        old(node_cpus)@,
                    ).union_prefer_right(llc@.every_cpu())
                },
                Err(e) => first_clash(old(topo)@.seen(), members) matches Some(member) && e@
                    == clash_error(member),
            }
        }),
{
    let ghost given = llc@;
    let ghost seen = topo@.seen();
    let ghost old_topo = topo@;
    let ghost old_cores = hierarchy::cores_view(node_cores@);
    let ghost old_cpus = hierarchy::cpus_view(node_cpus@);
    let ids = sorted_keys(&llc.cores);
    assert(given.cores.dom() =~= llc.cores@.dom());
    let ghost named = |c: usize| given.cores[c].members(c);
    let ghost cpus = |c: usize| given.cores[c].cpus;
    let mut llc_cpus: BTreeMap<usize, Arc<Cpu>> = BTreeMap::new();
    let mut k: usize = 0;
    proof {
        let none = given.cores.restrict(ids@.take(0).to_set());
        assert(none =~= Map::empty());
        assert(old_topo.cores.union_prefer_right(none) =~= old_topo.cores);
        assert(old_cores.union_prefer_right(none) =~= old_cores);
        assert(old_topo.cpus.union_prefer_right(Map::empty()) =~= old_topo.cpus);
        assert(old_cpus.union_prefer_right(Map::empty()) =~= old_cpus);
        assert(hierarchy::cpus_view(llc_cpus@) =~= Map::empty());
        assert(seen.union(Seq::<Member>::empty().to_set()) =~= seen);
    }
    while k < ids.len()
        invariant
            k <= ids.len(),
            llc@ == given,
            given.cores.dom() == llc.cores@.dom(),
            ids@ == order::sorted(given.cores.dom()),
            ids@.to_set() == given.cores.dom(),
            forall|i: int| 0 <= i < ids.len() ==> llc.cores@.contains_key(#[trigger] ids@[i]),
            named == (|c: usize| given.cores[c].members(c)),
            cpus == (|c: usize| given.cores[c].cpus),
            seen == old_topo.seen(),
            old_topo == old(topo)@,
            old_cores == hierarchy::cores_view(old(node_cores)@),
            old_cpus == hierarchy::cpus_view(old(node_cpus)@),
            first_clash(seen, chain(ids@.take(k as int), named)) is None,
            topo@.seen() == seen.union(chain(ids@.take(k as int), named).to_set()),
            topo@.llcs == old_topo.llcs,
            topo@.cores == old_topo.cores.union_prefer_right(
                given.cores.restrict(ids@.take(k as int).to_set()),
            ),
            hierarchy::cores_view(node_cores@) == old_cores.union_prefer_right(
                given.cores.restrict(ids@.take(k as int).to_set()),
            ),
            topo@.cpus == old_topo.cpus.union_prefer_right(gather(ids@.take(k as int), cpus)),
            hierarchy::cpus_view(node_cpus@) == old_cpus.union_prefer_right(
                gather(ids@.take(k as int), cpus),
            ),
            hierarchy::cpus_view(llc_cpus@) == gather(ids@.take(k as int), cpus),
        decreases ids.len() - k,
    {
        let id = ids[k];
        let ghost before = topo@;
        let ghost done = ids@.take(k as int);
        let ghost next = ids@.take(k + 1);
        let ghost members = given.cores[id].members(id);
        proof {
            assert(next.drop_last() == done && next.last() == id);
            assert(chain(next, named) == chain(done, named) + members);
            lemma_clash_concat(seen, chain(done, named), members);
            lemma_chain_prefix(seen, ids@, k + 1, named, Member::Llc(llc_id));
            lemma_take_next(ids@, k as int);
            lemma_concat_set(seen, chain(done, named), members);
        }
        match llc.cores.get(&id) {
            Some(core) => {
                assert(core@ == given.cores[id]);
                match index_core(id, core, topo, node_cores, node_cpus, &mut llc_cpus) {
                    Ok(_) => {},
                    Err(e) => return Err(e),
                }
                proof {
                    let part = given.cores[id].cpus;
                    assert(gather(next, cpus) == gather(done, cpus).union_prefer_right(part));
                    lemma_union_assoc(old_topo.cpus, gather(done, cpus), part);
                    lemma_union_assoc(old_cpus, gather(done, cpus), part);
                    assert(old_topo.cores.union_prefer_right(
                        given.cores.restrict(done.to_set()),
                    ).insert(id, given.cores[id]) =~= old_topo.cores.union_prefer_right(
                        given.cores.restrict(done.to_set().insert(id)),
                    ));
                    assert(old_cores.union_prefer_right(given.cores.restrict(done.to_set())).insert(
                        id,
                        given.cores[id],
                    ) =~= old_cores.union_prefer_right(
                        given.cores.restrict(done.to_set().insert(id)),
                    ));
                }
            },
            None => {
                assert(false);
            },
        }
        k = k + 1;
    }
    proof {
        assert(ids@.take(k as int) == ids@);
        assert(given.cores.restrict(ids@.to_set()) =~= given.cores);
    }
    llc.all_cpus = llc_cpus;
    assert(llc@ =~= given.indexed());

    let ghost before = topo@;
    let ghost below = chain(ids@, named);
    let ghost itself = seq![Member::Llc(llc_id)];
    proof {
        assert(given.members(llc_id) == below + itself);
        lemma_clash_concat(seen, below, itself);
        lemma_clash_one(before.seen(), Member::Llc(llc_id));
        lemma_concat_set(seen, below, itself);
    }
    let shared = Arc::new(llc);
    let known = topo.llcs.insert(llc_id, share(&shared));
    if known.is_some() {
        return Err(TopologyError::DuplicateLlc { id: llc_id });
    }
    proof {
        assert(topo@.llcs =~= before.llcs.insert(llc_id, given.indexed()));
        assert(topo@.seen() =~= before.seen().insert(Member::Llc(llc_id)));
        assert(itself.to_set() =~= Set::empty().insert(Member::Llc(llc_id))) by {
            assert(itself[0] == Member::Llc(llc_id));
        }
        assert(topo@.seen() =~= before.seen().union(itself.to_set()));
    }
    Ok(shared)
}

/// Enters what a node consists of, and gives the node and its LLCs their own skip
/// indices. Fails on the first member that is there already.
fn index_node(mut node: Node, topo: &mut Skip) -> (result: Result<Node, TopologyError>)
    ensures
        ({
            let members = node@.members();
            match result {
                Ok(done) => {
                    &&& first_clash(old(topo)@.seen(), members) is None
                    &&& done@ == node@.indexed()
                    &&& final(topo)@ == (SkipView {
                        llcs: old(topo)@.llcs.union_prefer_right(node@.indexed().llcs),
                        cores: old(topo)@.cores.union_prefer_right(node@.every_core()),
                        cpus: old(topo)@.cpus.union_prefer_right(node@.every_cpu()),
                    })
                    &&& final(topo)@.seen() == old(topo)@.seen().union(members.to_set())
                },
                Err(e) => first_clash(old(topo)@.seen(), members) matches Some(member) && e@
                    == clash_error(member),
            }
        }),
{
    let ghost given = node@;
    let ghost done_llcs = given.indexed().llcs;
    let ghost seen = topo@.seen();
    let ghost old_topo = topo@;
    let ids = sorted_keys(&node.llcs);
    assert(given.llcs.dom() =~= node.llcs@.dom());
    let ghost named = |l: usize| given.llcs[l].members(l);
    let ghost cores = |l: usize| given.llcs[l].cores;
    let ghost cpus = |l: usize| given.llcs[l].every_cpu();
    let mut llcs: BTreeMap<usize, Arc<Llc>> = BTreeMap::new();
    let mut node_cores: BTreeMap<usize, Arc<Core>> = BTreeMap::new();
    let mut node_cpus: BTreeMap<usize, Arc<Cpu>> = BTreeMap::new();
    let mut k: usize = 0;
    proof {
        let none = done_llcs.restrict(ids@.take(0).to_set());
        assert(none =~= Map::empty());
        assert(hierarchy::llcs_view(llcs@) =~= none);
        assert(old_topo.llcs.union_prefer_right(none) =~= old_topo.llcs);
        assert(old_topo.cores.union_prefer_right(Map::empty()) =~= old_topo.cores);
        assert(old_topo.cpus.union_prefer_right(Map::empty()) =~= old_topo.cpus);
        assert(hierarchy::cores_view(node_cores@) =~= Map::empty());
        assert(hierarchy::cpus_view(node_cpus@) =~= Map::empty());
        assert(seen.union(Seq::<Member>::empty().to_set()) =~= seen);
    }
    while k < ids.len()
        invariant
            k <= ids.len(),
            node@ == given,
            given.llcs.dom() == node.llcs@.dom(),
            done_llcs == given.indexed().llcs,
            ids@ == order::sorted(given.llcs.dom()),
            ids@.to_set() == given.llcs.dom(),
            forall|i: int| 0 <= i < ids.len() ==> node.llcs@.contains_key(#[trigger] ids@[i]),
            named == (|l: usize| given.llcs[l].members(l)),
            cores == (|l: usize| given.llcs[l].cores),
            cpus == (|l: usize| given.llcs[l].every_cpu()),
            seen == old_topo.seen(),
            old_topo == old(topo)@,
            first_clash(seen, chain(ids@.take(k as int), named)) is None,
            topo@.seen() == seen.union(chain(ids@.take(k as int), named).to_set()),
            topo@.llcs == old_topo.llcs.union_prefer_right(
                done_llcs.restrict(ids@.take(k as int).to_set()),
            ),
            hierarchy::llcs_view(llcs@) == done_llcs.restrict(ids@.take(k as int).to_set()),
            topo@.cores == old_topo.cores.union_prefer_right(gather(ids@.take(k as int), cores)),
            hierarchy::cores_view(node_cores@) == gather(ids@.take(k as int), cores),
            topo@.cpus == old_topo.cpus.union_prefer_right(gather(ids@.take(k as int), cpus)),
            hierarchy::cpus_view(node_cpus@) == gather(ids@.take(k as int), cpus),
        decreases ids.len() - k,
    {
        let id = ids[k];
        let ghost done = ids@.take(k as int);
        let ghost next = ids@.take(k + 1);
        let ghost members = given.llcs[id].members(id);
        proof {
            assert(next.drop_last() == done && next.last() == id);
            assert(chain(next, named) == chain(done, named) + members);
            lemma_clash_concat(seen, chain(done, named), members);
            lemma_chain_prefix(seen, ids@, k + 1, named, Member::Llc(id));
            lemma_take_next(ids@, k as int);
            lemma_concat_set(seen, chain(done, named), members);
        }
        match node.llcs.get(&id) {
            Some(shared) => {
                let llc = (**shared).clone();
                assert(llc@ == given.llcs[id]);
                match index_llc(id, llc, topo, &mut node_cores, &mut node_cpus) {
                    Ok(indexed) => {
                        let ghost before = hierarchy::llcs_view(llcs@);
                        llcs.insert(id, indexed);
                        assert(hierarchy::llcs_view(llcs@) =~= before.insert(id, done_llcs[id]));
                    },
                    Err(e) => return Err(e),
                }
                proof {
                    let llc = given.llcs[id];
                    assert(done_llcs[id] == llc.indexed());
                    assert(gather(next, cores) == gather(done, cores).union_prefer_right(
                        llc.cores,
                    ));
                    assert(gather(next, cpus) == gather(done, cpus).union_prefer_right(
                        llc.every_cpu(),
                    ));
                    lemma_union_assoc(old_topo.cores, gather(done, cores), llc.cores);
                    lemma_union_assoc(old_topo.cpus, gather(done, cpus), llc.every_cpu());
                    assert(hierarchy::llcs_view(llcs@) =~= done_llcs.restrict(
                        done.to_set().insert(id),
                    ));
                    assert(topo@.llcs =~= old_topo.llcs.union_prefer_right(
                        done_llcs.restrict(done.to_set().insert(id)),
                    ));
                }
            },
            None => {
                assert(false);
            },
        }
        k = k + 1;
    }
    proof {
        assert(ids@.take(k as int) == ids@);
        assert(done_llcs.restrict(ids@.to_set()) =~= done_llcs);
    }
    node.llcs = llcs;
    node.all_cores = node_cores;
    node.all_cpus = node_cpus;
    assert(node@ =~= given.indexed());
    Ok(node)
}

impl Topology {
    /// Puts nodes together to a topology, with the skip indices that are prefixed
    /// with all_ for easy lookups. Fails on the first CPU, core or LLC that comes
    /// up twice.
    pub fn instantiate(span: Cpumask, nodes: BTreeMap<usize, Node>) -> (result: Result<
        Topology,
        TopologyError,
    >)
        ensures
            match result {
                Ok(topo) => assembled(span@, hierarchy::nodes_view(nodes@)) == Ok::<_, ErrorView>(
                    topo@,
                ),
                Err(e) => assembled(span@, hierarchy::nodes_view(nodes@)) == Err::<TopologyView, _>(
                    e@,
                ),
            },
    {
        let ghost given = hierarchy::nodes_view(nodes@);
        let ghost seen = Set::<Member>::empty();
        let ids = sorted_keys(&nodes);
        assert(given.dom() =~= nodes@.dom());
        let ghost named = |n: usize| given[n].members();
        let ghost llcs = |n: usize| given[n].indexed().llcs;
        let ghost cores = |n: usize| given[n].every_core();
        let ghost cpus = |n: usize| given[n].every_cpu();
        let ghost done_nodes = given.map_values(|node: NodeView| node.indexed());
        let mut topo = Skip {
            llcs: BTreeMap::new(),
            cores: BTreeMap::new(),
            cpus: BTreeMap::new(),
        };
        let mut rest = nodes;
        let mut indexed_nodes: BTreeMap<usize, Node> = BTreeMap::new();
        let mut k: usize = 0;
        proof {
            assert(topo@ =~= (SkipView {
                llcs: Map::empty(),
                cores: Map::empty(),
                cpus: Map::empty(),
            }));
            assert(topo@.seen() =~= seen.union(Seq::<Member>::empty().to_set()));
            assert(hierarchy::nodes_view(indexed_nodes@) =~= done_nodes.restrict(
                ids@.take(0).to_set(),
            ));
        }
        while k < ids.len()
            invariant
                k <= ids.len(),
                given == hierarchy::nodes_view(nodes@),
                order::ascending(ids@),
                ids@ == order::sorted(given.dom()),
                ids@.to_set() == given.dom(),
                forall|i: int| 0 <= i < ids.len() ==> given.contains_key(#[trigger] ids@[i]),
                forall|i: int|
                    k <= i < ids.len() ==> rest@.contains_key(#[trigger] ids@[i])
                        && rest@[ids@[i]]@ == given[ids@[i]],
                named == (|n: usize| given[n].members()),
                llcs == (|n: usize| given[n].indexed().llcs),
                cores == (|n: usize| given[n].every_core()),
                cpus == (|n: usize| given[n].every_cpu()),
                done_nodes == given.map_values(|node: NodeView| node.indexed()),
                seen == Set::<Member>::empty(),
                first_clash(seen, chain(ids@.take(k as int), named)) is None,
                topo@.seen() == seen.union(chain(ids@.take(k as int), named).to_set()),
                topo@.llcs == gather(ids@.take(k as int), llcs),
                topo@.cores == gather(ids@.take(k as int), cores),
                topo@.cpus == gather(ids@.take(k as int), cpus),
                hierarchy::nodes_view(indexed_nodes@) == done_nodes.restrict(
                    ids@.take(k as int).to_set(),
                ),
            decreases ids.len() - k,
        {
            let id = ids[k];
            let ghost done = ids@.take(k as int);
            let ghost next = ids@.take(k + 1);
            let ghost members = given[id].members();
            proof {
                assert(next.drop_last() == done && next.last() == id);
                assert(chain(next, named) == chain(done, named) + members);
                lemma_clash_concat(seen, chain(done, named), members);
                lemma_chain_prefix(seen, ids@, k + 1, named, Member::Llc(id));
                lemma_take_next(ids@, k as int);
                lemma_concat_set(seen, chain(done, named), members);
            }
            match rest.remove(&id) {
                Some(node) => {
                    match index_node(node, &mut topo) {
                        Ok(indexed) => {
                            let ghost before = hierarchy::nodes_view(indexed_nodes@);
                            indexed_nodes.insert(id, indexed);
                            assert(hierarchy::nodes_view(indexed_nodes@) =~= before.insert(
                                id,
                                done_nodes[id],
                            ));
                        },
                        Err(e) => return Err(e),
                    }
                    proof {
                        assert(hierarchy::nodes_view(indexed_nodes@) =~= done_nodes.restrict(
                            done.to_set().insert(id),
                        ));
                    }
                },
                None => {
                    assert(false);
                },
            }
            k = k + 1;
        }
        proof {
            assert(ids@.take(k as int) == ids@);
            assert(done_nodes.restrict(ids@.to_set()) =~= done_nodes);
            span.lemma_bounded();
        }
        let nr_cpus_online = span.weight();
        let Skip { llcs: all_llcs, cores: all_cores, cpus: all_cpus } = topo;
        Ok(
            Topology {
                nodes: indexed_nodes,
                span,
                nr_cpus_online,
                all_llcs,
                all_cores,
                all_cpus,
            },
        )
    }
}

/// The nodes of the host: its NUMA nodes, or a single node where it has none or
/// `flattened` asks for that.
pub open spec fn nodes_of(sys: Sysfs, online: CpumaskView, flattened: bool) -> Nodes {
    if !flattened && sys.has_node_dir {
        builder::numa_nodes(sys, sys.node_dirs@, online, TopoCtxView::none())
    } else {
        builder::default_node(sys, online, TopoCtxView::none(), flattened)
    }
}

/// What comes of building a topology of the host.
pub open spec fn built(sys: Sysfs, flattened: bool) -> Result<TopologyView, ErrorView> {
    match sysfs::online_cpus(sysfs::text_view(sys.online), sys.nr_cpu_ids) {
        Err(e) => Err(e),
        Ok(online) => {
            let made = nodes_of(sys, online, flattened);
            match made.error {
                Some(e) => Err(e),
                None => assembled(online, made.nodes),
            }
        },
    }
}

impl CoreView {
    /// The two lowest CPUs of the core, where it has two.
    pub open spec fn pair(self) -> Option<(usize, usize)> {
        let ids = order::sorted(self.cpus.dom());
        if ids.len() >= 2 {
            Some((ids[0], ids[1]))
        } else {
            None
        }
    }

    /// Whether `cpu` is one of the two lowest CPUs of the core.
    pub open spec fn pairs(self, cpu: usize) -> bool {
        self.pair() matches Some((a, b)) && (cpu == a || cpu == b)
    }

    /// The other one of the two lowest CPUs of the core.
    pub open spec fn partner(self, cpu: usize) -> usize {
        if cpu == self.pair().unwrap().0 {
            self.pair().unwrap().1
        } else {
            self.pair().unwrap().0
        }
    }
}

impl TopologyView {
    /// Whether the core `c` has `cpu` as one of its two lowest CPUs.
    pub open spec fn paired_in(self, c: usize, cpu: usize) -> bool {
        self.all_cores.contains_key(c) && self.all_cores[c].pairs(cpu)
    }

    /// Whether the core `c` is the last one with `cpu` as one of its two lowest
    /// CPUs.
    pub open spec fn last_paired_in(self, c: usize, cpu: usize) -> bool {
        &&& self.paired_in(c, cpu)
        &&& forall|d: usize| #[trigger] self.paired_in(d, cpu) ==> d <= c
    }

    /// Whether `sibling` holds for each CPU the other one of the two lowest CPUs of
    /// its core, and -1 for a CPU that is none of them.
    pub open spec fn maps_siblings(self, sibling: Seq<i32>) -> bool {
        &&& forall|cpu: usize, c: usize|
            cpu < sibling.len() && #[trigger] self.last_paired_in(c, cpu) ==> sibling[cpu as int]
                == self.all_cores[c].partner(cpu)
        &&& forall|cpu: usize|
            cpu < sibling.len() && (forall|c: usize| !self.paired_in(c, cpu))
                ==> #[trigger] sibling[cpu as int] == -1
    }

    /// Whether the CPUs with a sibling are below `nr_cpus` and can be written as `i32`.
    pub open spec fn siblings_below(self, nr_cpus: nat) -> bool {
        forall|c: usize| #[trigger]
            self.all_cores.contains_key(c) ==> (self.all_cores[c].pair() matches Some((_, b)) ==> b
                < nr_cpus && b <= i32::MAX)
    }
}

impl Topology {
    /// Build a complete host Topology
    pub fn new(sys: &Sysfs) -> (result: Result<Topology, TopologyError>)
        requires
            sys.in_range(false),
        ensures
            match result {
                Ok(topo) => {
                    &&& built(*sys, false) == Ok::<_, ErrorView>(topo@)
                    &&& topo@.sound(builder::facts_of(*sys, topo@.span, false))
                    &&& nodes_of(*sys, topo@.span, false).ctx.countable()
                },
                Err(e) => built(*sys, false) == Err::<TopologyView, _>(e@),
            },
    {
        let span = match sysfs::cpus_online(&sys.online, sys.nr_cpu_ids) {
            Ok(span) => span,
            Err(e) => return Err(e),
        };
        let mut topo_ctx = TopoCtx::new();
        // If the kernel is compiled with CONFIG_NUMA, then build a topology from
        // the NUMA hierarchy in sysfs. Otherwise, just make a single default node
        // of ID 0 which contains all cores.
        let made = if sys.has_node_dir {
            builder::create_numa_nodes(sys, &span, &mut topo_ctx)
        } else {
            builder::create_default_node(sys, &span, &mut topo_ctx, false)
        };
        let result = match made {
            Ok(nodes) => Self::instantiate(span, nodes),
            Err(e) => Err(e),
        };
        proof {
            topo_ctx.lemma_countable();
            if result is Ok {
                laws::law_topology_is_sound(*sys, false, result->Ok_0@);
            }
        }
        result
    }

    /// Builds a topology with a single node and a single LLC in it.
    pub fn with_flattened_llc_node(sys: &Sysfs) -> (result: Result<Topology, TopologyError>)
        requires
            sys.in_range(true),
        ensures
            match result {
                Ok(topo) => {
                    &&& built(*sys, true) == Ok::<_, ErrorView>(topo@)
                    &&& topo@.sound(builder::facts_of(*sys, topo@.span, true))
                    &&& nodes_of(*sys, topo@.span, true).ctx.countable()
                },
                Err(e) => built(*sys, true) == Err::<TopologyView, _>(e@),
            },
    {
        let span = match sysfs::cpus_online(&sys.online, sys.nr_cpu_ids) {
            Ok(span) => span,
            Err(e) => return Err(e),
        };
        let mut topo_ctx = TopoCtx::new();
        let result = match builder::create_default_node(sys, &span, &mut topo_ctx, true) {
            Ok(nodes) => Self::instantiate(span, nodes),
            Err(e) => Err(e),
        };
        proof {
            topo_ctx.lemma_countable();
            if result is Ok {
                laws::law_topology_is_sound(*sys, true, result->Ok_0@);
            }
        }
        result
    }

    /// Returns whether the Topology has a hybrid architecture of big and little cores.
    pub fn has_little_cores(&self) -> (hybrid: bool)
        ensures
            hybrid <==> {
                &&& exists|c: usize| #[trigger]
                    self@.all_cores.contains_key(c) && self@.all_cores[c].core_type
                        == CoreType::Little
                &&& exists|c: usize| #[trigger]
                    self@.all_cores.contains_key(c) && self@.all_cores[c].core_type is Big
            },
    {
        let ids = sorted_keys(&self.all_cores);
        let mut little = false;
        let mut big = false;
        let mut k: usize = 0;
        while k < ids.len()
            invariant
                k <= ids.len(),
                forall|c: usize| #[trigger]
                    ids@.contains(c) <==> self.all_cores@.contains_key(c),
                little ==> exists|c: usize| #[trigger]
                    self@.all_cores.contains_key(c) && self@.all_cores[c].core_type
                        == CoreType::Little,
                big ==> exists|c: usize| #[trigger]
                    self@.all_cores.contains_key(c) && self@.all_cores[c].core_type is Big,
                forall|j: int|
                    0 <= j < k ==> match self@.all_cores[#[trigger] ids@[j]].core_type {
                        CoreType::Little => little,
                        CoreType::Big { .. } => big,
                    },
            decreases ids.len() - k,
        {
            let id = ids[k];
            assert(ids@.contains(id));
            match self.all_cores.get(&id) {
                Some(core) => {
                    assert(self@.all_cores.contains_key(id));
                    match core.core_type {
                        CoreType::Little => little = true,
                        CoreType::Big { .. } => big = true,
                    }
                },
                None => {},
            }
            k = k + 1;
        }
        assert forall|c: usize| #[trigger] self@.all_cores.contains_key(c) implies match
            self@.all_cores[c].core_type {
            CoreType::Little => little,
            CoreType::Big { .. } => big,
        } by {
            assert(ids@.contains(c));
        }
        little && big
    }

    /// Returns the bits of online CPUs, out of `nr_cpus_possible`.
    pub fn cpus_bitvec(&self, nr_cpus_possible: usize) -> (cpus: CpuBits)
        requires
            nr_cpus_possible <= usize::MAX / 8,
            forall|cpu: usize| #[trigger]
                self@.all_cpus.contains_key(cpu) ==> cpu < nr_cpus_possible,
        ensures
            cpus@ == Seq::new(
                nr_cpus_possible as nat,
                |i: int| self@.all_cpus.contains_key(i as usize),
            ),
    {
        let ids = sorted_keys(&self.all_cpus);
        let mut cpus = repeat_bit(false, nr_cpus_possible);
        let mut k: usize = 0;
        while k < ids.len()
            invariant
                k <= ids.len(),
                cpus@.len() == nr_cpus_possible,
                forall|cpu: usize| #[trigger]
                    self@.all_cpus.contains_key(cpu) ==> cpu < nr_cpus_possible,
                forall|cpu: usize| #[trigger]
                    ids@.contains(cpu) <==> self.all_cpus@.contains_key(cpu),
                forall|i: int|
                    0 <= i < nr_cpus_possible ==> (#[trigger] cpus@[i] <==> ids@.take(
                        k as int,
                    ).contains(i as usize)),
            decreases ids.len() - k,
        {
            let id = ids[k];
            assert(ids@.contains(id));
            assert(self@.all_cpus.contains_key(id));
            let ghost before = cpus@;
            set_bit(&mut cpus, id, true);
            proof {
                lemma_take_next(ids@, k as int);
                let now = ids@.take(k as int);
                let next = ids@.take(k + 1);
                assert forall|i: int| 0 <= i < nr_cpus_possible implies (#[trigger] cpus@[i]
                    <==> next.contains(i as usize)) by {
                    assert(next.to_set().contains(i as usize) == next.contains(i as usize));
                    assert(now.to_set().contains(i as usize) == now.contains(i as usize));
                }
            }
            k = k + 1;
        }
        assert(ids@.take(k as int) == ids@);
        assert forall|i: int| 0 <= i < nr_cpus_possible implies cpus@[i]
            == self@.all_cpus.contains_key(i as usize) by {
            assert(ids@.contains(i as usize) <==> self.all_cpus@.contains_key(i as usize));
        }
        assert(cpus@ =~= Seq::new(
            nr_cpus_possible as nat,
            |i: int| self@.all_cpus.contains_key(i as usize),
        ));
        cpus
    }

    /// Returns a vector that maps the index of each logical core to the sibling core.
    /// This represents the "next sibling" core within a package in systems that support SMT.
    /// The sibling core is the other logical core that shares the physical resources
    /// of the same physical core.
    ///
    /// Assuming each core holds exactly at most two cpus: the others are not looked
    /// at. A CPU without a sibling has -1.
    pub fn sibling_cpus(&self, nr_cpus_possible: usize) -> (sibling_cpu: Vec<i32>)
        requires
            self@.siblings_below(nr_cpus_possible as nat),
        ensures
            sibling_cpu.len() == nr_cpus_possible,
            self@.maps_siblings(sibling_cpu@),
    {
        let ids = sorted_keys(&self.all_cores);
        assert(self@.all_cores.dom() =~= self.all_cores@.dom());
        let mut sibling_cpu: Vec<i32> = Vec::new();
        sibling_cpu.resize(nr_cpus_possible, -1i32);
        let mut k: usize = 0;
        while k < ids.len()
            invariant
                k <= ids.len(),
                order::ascending(ids@),
                self@.all_cores.dom() == self.all_cores@.dom(),
                forall|c: usize| #[trigger]
                    ids@.contains(c) <==> self.all_cores@.contains_key(c),
                forall|c: usize| #[trigger]
                    self@.all_cores.contains_key(c) ==> (self@.all_cores[c].pair() matches Some(
                        (_, b),
                    ) ==> b < nr_cpus_possible && b <= i32::MAX),
                sibling_cpu.len() == nr_cpus_possible,
                forall|cpu: usize, j: int|
                    cpu < nr_cpus_possible && 0 <= j < k && #[trigger] self@.paired_in(
                        ids@[j],
                        cpu,
                    ) && (forall|i: int|
                        j < i < k ==> !#[trigger] self@.paired_in(ids@[i], cpu))
                        ==> sibling_cpu@[cpu as int] == self@.all_cores[ids@[j]].partner(cpu),
                forall|cpu: usize|
                    cpu < nr_cpus_possible && (forall|j: int|
                        0 <= j < k ==> !#[trigger] self@.paired_in(ids@[j], cpu))
                        ==> #[trigger] sibling_cpu@[cpu as int] == -1,
            decreases ids.len() - k,
        {
            let id = ids[k];
            assert(ids@.contains(id));
            assert(self@.all_cores.contains_key(id));
            let ghost before = sibling_cpu@;
            match self.all_cores.get(&id) {
                Some(core) => {
                    let ghost view = self@.all_cores[id];
                    assert(core@ == view);
                    let cpus = sorted_keys(&core.cpus);
                    assert(view.cpus.dom() =~= core.cpus@.dom());
                    if cpus.len() >= 2 {
                        let first = cpus[0];
                        let second = cpus[1];
                        assert(view.pair() == Some((first, second)));
                        sibling_cpu.set(first, second as i32);
                        sibling_cpu.set(second, first as i32);
                    }
                    assert forall|cpu: usize| cpu < nr_cpus_possible implies sibling_cpu@[cpu as int]
                        == if self@.paired_in(id, cpu) {
                        view.partner(cpu) as i32
                    } else {
                        before[cpu as int]
                    } by {}
                },
                None => {
                    assert(false);
                },
            }
            assert forall|cpu: usize, j: int|
                cpu < nr_cpus_possible && 0 <= j < k + 1 && #[trigger] self@.paired_in(
                    ids@[j],
                    cpu,
                ) && (forall|i: int| j < i < k + 1 ==> !#[trigger] self@.paired_in(ids@[i], cpu))
                implies sibling_cpu@[cpu as int] == self@.all_cores[ids@[j]].partner(cpu) by {
                if j < k {
                    assert(!self@.paired_in(ids@[k as int], cpu));
                    assert(sibling_cpu@[cpu as int] == before[cpu as int]);
                }
            }
            assert forall|cpu: usize|
                cpu < nr_cpus_possible && (forall|j: int|
                    0 <= j < k + 1 ==> !#[trigger] self@.paired_in(ids@[j], cpu))
                implies #[trigger] sibling_cpu@[cpu as int] == -1 by {
                assert(!self@.paired_in(ids@[k as int], cpu));
            }
            k = k + 1;
        }
        assert forall|cpu: usize, c: usize|
            cpu < nr_cpus_possible && #[trigger] self@.last_paired_in(c, cpu) implies
            sibling_cpu@[cpu as int] == self@.all_cores[c].partner(cpu) by {
            assert(ids@.contains(c));
            let j = choose|j: int| 0 <= j < ids.len() && ids@[j] == c;
            assert(self@.paired_in(ids@[j], cpu));
            assert forall|i: int| j < i < k implies !#[trigger] self@.paired_in(ids@[i], cpu) by {
                if self@.paired_in(ids@[i], cpu) {
                    assert(ids@[i] <= c);
                }
            }
        }
        sibling_cpu
    }

    /// Get all GPUs on the hosts, by their index.
    pub fn gpus(&self) -> (gpus: BTreeMap<GpuIndex, &Gpu>)
        ensures
            gpus@.map_values(|gpu: &Gpu| *gpu) == gather(
                order::sorted(self@.nodes.dom()),
                |n: usize| self@.nodes[n].gpus,
            ),
    {
        let ids = sorted_keys(&self.nodes);
        assert(self@.nodes.dom() =~= self.nodes@.dom());
        let mut gpus: BTreeMap<GpuIndex, &Gpu> = BTreeMap::new();
        let ghost part = |n: usize| self@.nodes[n].gpus;
        let ghost target = |gpu: &Gpu| *gpu;
        let mut k: usize = 0;
        assert(gpus@.map_values(target) =~= Map::empty());
        while k < ids.len()
            invariant
                k <= ids.len(),
                forall|i: int| 0 <= i < ids.len() ==> self.nodes@.contains_key(#[trigger] ids@[i]),
                part == (|n: usize| self@.nodes[n].gpus),
                target == (|gpu: &Gpu| *gpu),
                gpus@.map_values(target) == gather(ids@.take(k as int), part),
            decreases ids.len() - k,
        {
            let id = ids[k];
            proof {
                let next = ids@.take(k + 1);
                assert(next.drop_last() == ids@.take(k as int) && next.last() == id);
            }
            match self.nodes.get(&id) {
                Some(node) => {
                    let ghost own = self@.nodes[id].gpus;
                    let ghost before = gpus@.map_values(target);
                    let indices = sorted_keys(&node.gpus);
                    let mut j: usize = 0;
                    assert(before.union_prefer_right(own.restrict(indices@.take(0).to_set()))
                        =~= before);
                    while j < indices.len()
                        invariant
                            j <= indices.len(),
                            own == node.gpus@,
                            forall|i: int|
                                0 <= i < indices.len() ==> own.contains_key(
                                    #[trigger] indices@[i],
                                ),
                            target == (|gpu: &Gpu| *gpu),
                            gpus@.map_values(target) == before.union_prefer_right(
                                own.restrict(indices@.take(j as int).to_set()),
                            ),
                        decreases indices.len() - j,
                    {
                        let index = indices[j];
                        proof {
                            lemma_take_next(indices@, j as int);
                        }
                        match node.gpus.get(&index) {
                            Some(gpu) => {
                                let ghost so_far = gpus@.map_values(target);
                                gpus.insert(index, gpu);
                                assert(gpus@.map_values(target) =~= so_far.insert(
                                    index,
                                    own[index],
                                ));
                                assert(gpus@.map_values(target) =~= before.union_prefer_right(
                                    own.restrict(indices@.take(j as int).to_set().insert(index)),
                                ));
                            },
                            None => {
                                assert(false);
                            },
                        }
                        j = j + 1;
                    }
                    assert(indices@.take(j as int) == indices@);
                    assert(own.restrict(indices@.to_set()) =~= own);
                },
                None => {
                    assert(false);
                },
            }
            k = k + 1;
        }
        assert(ids@.take(k as int) == ids@);
        gpus
    }
}

proof fn lemma_union_assoc<V>(a: Map<usize, V>, b: Map<usize, V>, c: Map<usize, V>)
    ensures
        a.union_prefer_right(b).union_prefer_right(c) == a.union_prefer_right(
            b.union_prefer_right(c),
        ),
{
    assert(a.union_prefer_right(b).union_prefer_right(c) =~= a.union_prefer_right(
        b.union_prefer_right(c),
    ));
}

proof fn lemma_concat_set(seen: Set<Member>, a: Seq<Member>, b: Seq<Member>)
    ensures
        seen.union(a.to_set()).union(b.to_set()) == seen.union((a + b).to_set()),
{
    assert forall|m: Member| (a + b).contains(m) == (a.contains(m) || b.contains(m)) by {
        if a.contains(m) {
            let i = choose|i: int| 0 <= i < a.len() && a[i] == m;
            assert((a + b)[i] == m);
        }
        if b.contains(m) {
            let i = choose|i: int| 0 <= i < b.len() && b[i] == m;
            assert((a + b)[a.len() + i] == m);
        }
    }
    assert(seen.union(a.to_set()).union(b.to_set()) =~= seen.union((a + b).to_set()));
}

/// A clash in the parts of the first keys is the first clash of all.
proof fn lemma_chain_prefix(
    seen: Set<Member>,
    keys: Seq<usize>,
    k: int,
    part: spec_fn(usize) -> Seq<Member>,
    end: Member,
)
    requires
        0 <= k <= keys.len(),
    ensures
        first_clash(seen, chain(keys.take(k), part)) is Some ==> {
            &&& first_clash(seen, chain(keys, part)) == first_clash(
                seen,
                chain(keys.take(k), part),
            )
            &&& first_clash(seen, chain(keys, part).push(end)) == first_clash(
                seen,
                chain(keys.take(k), part),
            )
        },
    decreases keys.len(),
{
    let all = chain(keys, part);
    assert(all.push(end) == all + seq![end]);
    lemma_clash_concat(seen, all, seq![end]);
    if k == keys.len() {
        assert(keys.take(k) == keys);
    } else {
        assert(keys.drop_last().take(k) == keys.take(k));
        lemma_chain_prefix(seen, keys.drop_last(), k, part, end);
        lemma_clash_concat(seen, chain(keys.drop_last(), part), part(keys.last()));
    }
}

/// The items of a prefix, with one more.
proof fn lemma_take_next<A>(s: Seq<A>, k: int)
    requires
        0 <= k < s.len(),
    ensures
        s.take(k + 1).to_set() == s.take(k).to_set().insert(s[k]),
{
    let now = s.take(k);
    let next = s.take(k + 1);
    assert forall|a: A| next.to_set().contains(a) == now.to_set().insert(s[k]).contains(a) by {
        if next.contains(a) {
            let i = choose|i: int| 0 <= i < next.len() && next[i] == a;
            if i < k {
                assert(now[i] == a);
            }
        }
        if now.contains(a) {
            let i = choose|i: int| 0 <= i < now.len() && now[i] == a;
            assert(next[i] == a);
        }
        assert(next[k] == s[k]);
    }
    assert(next.to_set() =~= now.to_set().insert(s[k]));
}

} // verus!
