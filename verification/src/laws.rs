//! What holds of every topology.

use crate::builder;
use crate::builder::Facts;
use crate::cpumask::CpumaskView;
use crate::error::ErrorView;
use crate::hierarchy::{CoreType, CoreView, GpuIndex, NodeView};
use crate::indices;
use crate::order;
use crate::soundness;
use crate::sysfs;
use crate::sysfs::{CpuDir, NodeDir, Sysfs};
use crate::text;
use crate::topology;
use crate::topology::TopologyView;
use crate::topology_map;
use vstd::prelude::*;

verus! {

/// A list of CPUs stands for exactly the CPUs in the ranges of its groups, all of
/// them below `nr_cpu_ids`.
pub proof fn law_online_list(groups: Seq<Seq<char>>, nr_cpu_ids: usize, cpus: Set<usize>)
    requires
        sysfs::listed_cpus(groups, nr_cpu_ids) == Ok::<_, ErrorView>(cpus),
    ensures
        forall|u: usize| #[trigger]
            cpus.contains(u) ==> u < nr_cpu_ids && exists|k: int|
                0 <= k < groups.len() && (text::cpu_group(#[trigger] groups[k]) matches Some(
                    (min, max),
                ) && min <= u <= max),
        forall|k: int, u: usize|
            #![trigger groups[k], cpus.contains(u)]
            0 <= k < groups.len() && (text::cpu_group(groups[k]) matches Some((min, max)) && min
                <= u <= max) ==> cpus.contains(u),
        forall|k: int| 0 <= k < groups.len() ==> text::cpu_group(#[trigger] groups[k]) is Some,
    decreases groups.len(),
{
    if groups.len() > 0 {
        let head = groups.drop_last();
        let before = sysfs::listed_cpus(head, nr_cpu_ids)->Ok_0;
        let (min, max) = text::cpu_group(groups.last()).unwrap();
        law_online_list(head, nr_cpu_ids, before);
        assert forall|i: int| 0 <= i < head.len() implies head[i] == #[trigger] groups[i] by {}
        assert(cpus == before.union(sysfs::cpus_between(min, max)));
        assert forall|u: usize| #[trigger] cpus.contains(u) implies u < nr_cpu_ids && exists|k: int|
            0 <= k < groups.len() && (text::cpu_group(#[trigger] groups[k]) matches Some((a, b))
                && a <= u <= b) by {
            if before.contains(u) {
                let k = choose|k: int|
                    0 <= k < head.len() && (text::cpu_group(#[trigger] head[k]) matches Some((a, b))
                        && a <= u <= b);
                assert(groups[k] == head[k]);
            } else {
                assert(min <= u <= max);
                assert(groups[groups.len() - 1] == groups.last());
            }
        }
        assert forall|k: int, u: usize|
            #![trigger groups[k], cpus.contains(u)]
            0 <= k < groups.len() && (text::cpu_group(groups[k]) matches Some((a, b)) && a <= u
                <= b) implies cpus.contains(u) by {
            if k < head.len() {
                assert(head[k] == groups[k]);
                assert(before.contains(u));
            } else {
                assert(sysfs::cpus_between(min, max).contains(u));
            }
        }
        assert forall|k: int| 0 <= k < groups.len() implies text::cpu_group(
            #[trigger] groups[k],
        ) is Some by {
            if k < head.len() {
                assert(text::cpu_group(head[k]) is Some);
            }
        }
    }
}

/// The IDs of CPUs are read from all their directories and brought into ascending
/// order: each ID is there as often as a directory has it.
pub proof fn law_cpu_ids(dirs: Seq<CpuDir>, ids: Seq<usize>)
    requires
        sysfs::cpu_ids(dirs) == Ok::<_, ErrorView>(ids),
    ensures
        forall|i: int, j: int| 0 <= i <= j < ids.len() ==> ids[i] <= ids[j],
        ids.to_multiset() == dirs.map_values(
            |dir: CpuDir| sysfs::cpu_dir_id(dir.path@).unwrap(),
        ).to_multiset(),
        forall|i: int|
            0 <= i < dirs.len() ==> sysfs::cpu_dir_id(#[trigger] dirs[i].path@) is Some,
{
    let read = sysfs::dir_ids(dirs)->Ok_0;
    let leq = |a: usize, b: usize| a <= b;
    lemma_dir_ids(dirs, read);
    assert(vstd::relations::total_ordering(leq));
    read.lemma_sort_by_ensures(leq);
    assert(read =~= dirs.map_values(|dir: CpuDir| sysfs::cpu_dir_id(dir.path@).unwrap()));
    assert forall|i: int, j: int| 0 <= i <= j < ids.len() implies ids[i] <= ids[j] by {
        if i < j {
            assert(leq(ids[i], ids[j]));
        }
    }
}

/// The number of possible CPU IDs is greater than each ID that a directory has.
pub proof fn law_nr_cpu_ids(dirs: Seq<CpuDir>, ids: Seq<usize>, i: int)
    requires
        sysfs::cpu_ids(dirs) == Ok::<_, ErrorView>(ids),
        0 <= i < dirs.len(),
    ensures
        sysfs::cpu_dir_id(dirs[i].path@) is Some,
        sysfs::cpu_dir_id(dirs[i].path@).unwrap() < ids.last() + 1,
{
    broadcast use vstd::seq_lib::group_to_multiset_ensures;

    law_cpu_ids(dirs, ids);
    let read = dirs.map_values(|dir: CpuDir| sysfs::cpu_dir_id(dir.path@).unwrap());
    let id = sysfs::cpu_dir_id(dirs[i].path@).unwrap();
    assert(read[i] == id);
    assert(read.contains(id));
    assert(read.to_multiset().count(id) > 0);
    assert(ids.to_multiset().count(id) > 0);
    assert(ids.contains(id));
}

/// Frequencies are known exactly where a CPU has a base frequency. The highest maximum
/// frequency is then the greatest among the CPUs with a base frequency.
pub proof fn law_frequencies(dirs: Seq<CpuDir>)
    ensures
        sysfs::average_freq(dirs) is Some <==> exists|i: int|
            0 <= i < dirs.len() && (#[trigger] dirs[i]).base() > 0,
        sysfs::average_freq(dirs) matches Some((_, top)) ==> {
            &&& forall|i: int|
                0 <= i < dirs.len() && (#[trigger] dirs[i]).base() > 0 ==> dirs[i].top_freq() <= top
            &&& exists|i: int|
                0 <= i < dirs.len() && (#[trigger] dirs[i]).base() > 0 && dirs[i].top_freq() == top
        },
{
    lemma_frequencies(dirs);
}

proof fn lemma_frequencies(dirs: Seq<CpuDir>)
    ensures
        sysfs::base_sum(dirs) > 0 ==> exists|i: int|
            0 <= i < dirs.len() && (#[trigger] dirs[i]).base() > 0 && dirs[i].top_freq()
                == sysfs::highest_freq(dirs),
        sysfs::base_sum(dirs) == 0 ==> sysfs::highest_freq(dirs) == 0,
        forall|i: int|
            0 <= i < dirs.len() && (#[trigger] dirs[i]).base() > 0 ==> sysfs::base_sum(dirs) > 0
                && dirs[i].top_freq() <= sysfs::highest_freq(dirs),
    decreases dirs.len(),
{
    if dirs.len() > 0 {
        let head = dirs.drop_last();
        lemma_frequencies(head);
        assert forall|i: int|
            0 <= i < dirs.len() && (#[trigger] dirs[i]).base() > 0 implies sysfs::base_sum(dirs) > 0
            && dirs[i].top_freq() <= sysfs::highest_freq(dirs) by {
            if i < head.len() {
                assert(head[i] == dirs[i]);
            }
        }
        if sysfs::base_sum(dirs) > 0 {
            if dirs.last().base() > 0 && dirs.last().top_freq() >= sysfs::highest_freq(head) {
                assert(dirs[dirs.len() - 1].base() > 0);
            } else {
                assert(sysfs::base_sum(head) > 0);
                let i = choose|i: int|
                    0 <= i < head.len() && (#[trigger] head[i]).base() > 0 && head[i].top_freq()
                        == sysfs::highest_freq(head);
                assert(dirs[i] == head[i]);
            }
        }
    }
}

pub(crate) proof fn lemma_dir_ids(dirs: Seq<CpuDir>, ids: Seq<usize>)
    requires
        sysfs::dir_ids(dirs) == Ok::<_, ErrorView>(ids),
    ensures
        ids.len() == dirs.len(),
        forall|i: int|
            0 <= i < dirs.len() ==> sysfs::cpu_dir_id(#[trigger] dirs[i].path@) == Some(ids[i]),
    decreases dirs.len(),
{
    if dirs.len() > 0 {
        let head = dirs.drop_last();
        let before = sysfs::dir_ids(head)->Ok_0;
        lemma_dir_ids(head, before);
        assert forall|i: int| 0 <= i < dirs.len() implies sysfs::cpu_dir_id(
            #[trigger] dirs[i].path@,
        ) == Some(ids[i]) by {
            if i < head.len() {
                assert(head[i] == dirs[i]);
                assert(sysfs::cpu_dir_id(head[i].path@) == Some(before[i]));
            }
        }
    }
}

impl TopologyView {
    /// Whether each core, LLC and node spans exactly the CPUs that are in it.
    pub open spec fn spans_hold(self) -> bool {
        &&& forall|n: usize| #[trigger]
            self.nodes.contains_key(n) ==> self.nodes[n].span == soundness::mask_of(
                self.span.nr_cpu_ids,
                self.nodes[n].all_cpus.dom(),
            )
        &&& forall|l: usize| #[trigger]
            self.all_llcs.contains_key(l) ==> self.all_llcs[l].span == soundness::mask_of(
                self.span.nr_cpu_ids,
                self.all_llcs[l].all_cpus.dom(),
            )
        &&& forall|c: usize| #[trigger]
            self.all_cores.contains_key(c) ==> self.all_cores[c].span == soundness::mask_of(
                self.span.nr_cpu_ids,
                self.all_cores[c].cpus.dom(),
            )
    }

    /// Whether no two LLCs, and no two cores, of one node share a kernel ID.
    pub open spec fn kernel_ids_apart(self) -> bool {
        &&& forall|n: usize, l: usize, m: usize| #[trigger]
            self.has_llc(n, l) && #[trigger] self.has_llc(n, m) && self.all_llcs[l].kernel_id
                == self.all_llcs[m].kernel_id ==> l == m
        &&& forall|n: usize, l: usize, c: usize, m: usize, d: usize| #[trigger]
            self.has_core(n, l, c) && #[trigger] self.has_core(n, m, d)
                && self.all_cores[c].kernel_id == self.all_cores[d].kernel_id ==> c == d
    }

    /// Whether the topology is what `facts` say: every object carries what sysfs says
    /// about it and the IDs of its ancestors, and is where its kernel IDs put it.
    pub open spec fn sound(self, facts: Facts) -> bool {
        &&& self.span == facts.online
        &&& self.nr_cpus_online == self.span.cpus.len()
        &&& self.nodes.dom().finite()
        &&& self.all_llcs.dom().finite()
        &&& self.all_cores.dom().finite()
        &&& self.all_cpus.dom().finite()
        &&& forall|n: usize| #[trigger]
            self.nodes.contains_key(n) ==> self.nodes[n].sound(facts, n)
        &&& self.indices_hold()
        &&& self.spans_hold()
        &&& self.kernel_ids_apart()
    }
}

/// Numbers below `n` are at most `n` many.
pub(crate) proof fn lemma_below(set: Set<usize>, n: usize)
    requires
        forall|u: usize| #[trigger] set.contains(u) ==> u < n,
    ensures
        set.finite(),
        set.len() <= n,
    decreases n,
{
    if n == 0 {
        assert(set =~= Set::empty());
    } else {
        let last = (n - 1) as usize;
        lemma_below(set.remove(last), last);
        if set.contains(last) {
            assert(set =~= set.remove(last).insert(last));
        } else {
            assert(set =~= set.remove(last));
        }
    }
}

/// Indices change nothing about what a node is.
proof fn lemma_indexed_sound(node: NodeView, facts: Facts, n: usize)
    requires
        node.sound(facts, n),
    ensures
        node.finite(),
        node.indexed().sound(facts, n),
{
    let after = node.indexed();
    assert(after.llcs.dom() =~= node.llcs.dom());
    soundness::lemma_sound_is_finite(node, facts, n);
    assert forall|l: usize| #[trigger] after.llcs.contains_key(l) implies after.llcs[l].sound(
        facts,
        l,
        n,
    ) by {
        let llc = node.llcs[l];
        let indexed = after.llcs[l];
        assert(node.llcs.contains_key(l));
        assert(llc.sound(facts, l, n));
        assert(indexed == llc.indexed());
        assert forall|c: usize, u: usize| #[trigger] indexed.has_cpu(c, u) == llc.has_cpu(
            c,
            u,
        ) by {}
        assert forall|u: usize| #[trigger] indexed.span.cpus.contains(u) implies exists|c: usize|
            indexed.has_cpu(c, u) by {
            assert(llc.span.cpus.contains(u));
            let c = choose|c: usize| llc.has_cpu(c, u);
            assert(indexed.has_cpu(c, u));
        }
    }
    assert forall|l: usize, u: usize| #[trigger] after.spans(l, u) == node.spans(l, u) by {}
    assert forall|u: usize| #[trigger] after.span.cpus.contains(u) implies exists|l: usize|
        after.spans(l, u) by {
        assert(node.span.cpus.contains(u));
        let l = choose|l: usize| node.spans(l, u);
        assert(after.spans(l, u));
    }
}

/// The spans of a node, of its LLCs and of its cores are the CPUs that are in them.
proof fn lemma_spans(node: NodeView, facts: Facts, n: usize)
    requires
        node.sound(facts, n),
        node.indices_hold(),
    ensures
        node.span == soundness::mask_of(facts.online.nr_cpu_ids, node.all_cpus.dom()),
        forall|l: usize| #[trigger]
            node.llcs.contains_key(l) ==> node.llcs[l].span == soundness::mask_of(
                facts.online.nr_cpu_ids,
                node.llcs[l].all_cpus.dom(),
            ),
{
    assert forall|l: usize| #[trigger] node.llcs.contains_key(l) implies node.llcs[l].span
        == soundness::mask_of(facts.online.nr_cpu_ids, node.llcs[l].all_cpus.dom()) by {
        let llc = node.llcs[l];
        assert(llc.sound(facts, l, n) && llc.indices_hold());
        assert forall|u: usize| llc.span.cpus.contains(u) == llc.all_cpus.contains_key(u) by {
            if llc.span.cpus.contains(u) {
                let c = choose|c: usize| llc.has_cpu(c, u);
                assert(llc.has_cpu(c, u));
            }
            if llc.all_cpus.contains_key(u) {
                let c = choose|c: usize| llc.has_cpu(c, u);
                assert(llc.has_cpu(c, u));
            }
        }
        assert(llc.span.cpus =~= llc.all_cpus.dom());
    }
    assert forall|u: usize| node.span.cpus.contains(u) == node.all_cpus.contains_key(u) by {
        if node.span.cpus.contains(u) {
            let l = choose|l: usize| node.spans(l, u);
            let llc = node.llcs[l];
            assert(llc.sound(facts, l, n));
            let c = choose|c: usize| llc.has_cpu(c, u);
            assert(node.has_cpu(l, c, u));
        }
        if node.all_cpus.contains_key(u) {
            let (l, c) = choose|l: usize, c: usize| node.has_cpu(l, c, u);
            let llc = node.llcs[l];
            assert(llc.sound(facts, l, n));
            assert(llc.has_cpu(c, u));
            assert(node.spans(l, u));
        }
    }
    assert(node.span.cpus =~= node.all_cpus.dom());
}

/// Every topology of a host is what sysfs says about the host. Its objects carry
/// their own IDs and those of their ancestors, and their facts. Each spans exactly
/// the CPUs below it. The skip indices hold exactly what is below them, and no CPU,
/// core or LLC is in two places. A core is known by its node and its kernel ID, and
/// so is an LLC.
pub proof fn law_topology_is_sound(sys: Sysfs, flattened: bool, topo: TopologyView)
    requires
        topology::built(sys, flattened) == Ok::<_, ErrorView>(topo),
        topology::nodes_of(sys, topo.span, flattened).ctx.countable(),
    ensures
        topo.sound(builder::facts_of(sys, topo.span, flattened)),
{
    let online = topo.span;
    let facts = builder::facts_of(sys, online, flattened);
    let made = topology::nodes_of(sys, online, flattened);
    soundness::lemma_nodes(sys, online, flattened);
    let list = sysfs::text_view(sys.online).unwrap();
    law_online_list(text::pieces(list, ','), sys.nr_cpu_ids, online.cpus);
    lemma_below(online.cpus, sys.nr_cpu_ids);
    assert forall|n: usize| #[trigger] made.nodes.contains_key(n) implies made.nodes[n].finite()
        && made.nodes[n].indexed().sound(facts, n) by {
        lemma_indexed_sound(made.nodes[n], facts, n);
    }
    indices::law_indices_hold(online, made.nodes, topo);
    assert(topo.nodes.dom() =~= made.nodes.dom());
    assert forall|n: usize| #[trigger] topo.nodes.contains_key(n) implies topo.nodes[n].sound(
        facts,
        n,
    ) && topo.nodes[n] == made.nodes[n].indexed() by {
        assert(made.nodes.contains_key(n));
    }
    assert(topo.spans_hold()) by {
        assert forall|n: usize| #[trigger] topo.nodes.contains_key(n) implies topo.nodes[n].span
            == soundness::mask_of(online.nr_cpu_ids, topo.nodes[n].all_cpus.dom()) by {
            lemma_spans(topo.nodes[n], facts, n);
        }
        assert forall|l: usize| #[trigger] topo.all_llcs.contains_key(l) implies topo.all_llcs[l].span
            == soundness::mask_of(online.nr_cpu_ids, topo.all_llcs[l].all_cpus.dom()) by {
            let n = choose|n: usize| topo.has_llc(n, l);
            assert(topo.has_llc(n, l));
            lemma_spans(topo.nodes[n], facts, n);
        }
        assert forall|c: usize| #[trigger]
            topo.all_cores.contains_key(c) implies topo.all_cores[c].span == soundness::mask_of(
            online.nr_cpu_ids,
            topo.all_cores[c].cpus.dom(),
        ) by {
            let (n, l) = choose|n: usize, l: usize| topo.has_core(n, l, c);
            assert(topo.has_core(n, l, c));
            let llc = topo.nodes[n].llcs[l];
            assert(llc.sound(facts, l, n));
            assert(llc.cores[c].sound(facts, c, l, llc.kernel_id, n));
        }
    }
    assert(topo.kernel_ids_apart()) by {
        assert forall|n: usize, l: usize, m: usize| #[trigger]
            topo.has_llc(n, l) && #[trigger] topo.has_llc(n, m) && topo.all_llcs[l].kernel_id
            == topo.all_llcs[m].kernel_id implies l == m by {
            let node = made.nodes[n];
            assert(made.nodes.contains_key(n));
            assert(made.ctx.names(node));
            assert(node.llcs.contains_key(l) && node.llcs.contains_key(m));
        }
        assert forall|n: usize, l: usize, c: usize, m: usize, d: usize| #[trigger]
            topo.has_core(n, l, c) && #[trigger] topo.has_core(n, m, d)
            && topo.all_cores[c].kernel_id == topo.all_cores[d].kernel_id implies c == d by {
            let node = made.nodes[n];
            assert(made.nodes.contains_key(n));
            assert(made.ctx.names(node));
            assert(node.llcs.contains_key(l) && node.llcs.contains_key(m));
            assert(node.llcs[l].cores.contains_key(c) && node.llcs[m].cores.contains_key(d));
        }
    }
}

/// Whether the directory of a NUMA node lists the CPU `u`.
pub open spec fn dir_lists(dir: NodeDir, u: usize) -> bool {
    exists|j: int|
        0 <= j < dir.cpu_paths@.len() && sysfs::node_cpu_id((#[trigger] dir.cpu_paths@[j])@)
            == Some(u)
}

/// Whether sysfs has a directory for the CPU `u`.
pub open spec fn has_cpu_dir(sys: Sysfs, u: usize) -> bool {
    exists|i: int|
        0 <= i < sys.cpu_dirs@.len() && sysfs::cpu_dir_id(#[trigger] sys.cpu_dirs@[i].path@)
            == Some(u)
}

/// Whether sysfs lists the CPU `u` in a directory for the node `n`. A topology without
/// NUMA nodes has all CPUs at the node 0.
pub open spec fn lists_under(sys: Sysfs, flattened: bool, n: usize, u: usize) -> bool {
    if !flattened && sys.has_node_dir {
        exists|i: int| #[trigger]
            soundness::dir_of(sys.node_dirs@, i, n) && dir_lists(sys.node_dirs@[i], u)
    } else {
        n == 0 && has_cpu_dir(sys, u)
    }
}

/// Whether sysfs lists the CPU `u` in the directory that the node `n` is made from:
/// the last one for this node.
pub open spec fn lists_at(sys: Sysfs, flattened: bool, n: usize, u: usize) -> bool {
    if !flattened && sys.has_node_dir {
        exists|i: int| #[trigger]
            soundness::last_dir_of(sys.node_dirs@, i, n) && dir_lists(sys.node_dirs@[i], u)
    } else {
        n == 0 && has_cpu_dir(sys, u)
    }
}

/// Whether sysfs lists the CPU `u` where a topology takes its CPUs from.
pub open spec fn lists(sys: Sysfs, flattened: bool, u: usize) -> bool {
    exists|n: usize| lists_at(sys, flattened, n, u)
}

/// The items of a node directory are the CPUs that its paths name.
proof fn lemma_node_items(facts: Facts, dir: NodeDir, u: usize)
    ensures
        soundness::online_items(facts, builder::node_items(dir)).contains(u) <==> {
            &&& facts.online.cpus.contains(u)
            &&& dir_lists(dir, u)
        },
{
    let items = builder::node_items(dir);
    let item = Ok::<usize, ErrorView>(u);
    if items.contains(item) {
        let j = choose|j: int| 0 <= j < items.len() && items[j] == item;
        assert(sysfs::node_cpu_id(dir.cpu_paths@[j]@) == Some(u));
    }
    if dir_lists(dir, u) {
        let j = choose|j: int|
            0 <= j < dir.cpu_paths@.len() && sysfs::node_cpu_id((#[trigger] dir.cpu_paths@[j])@)
                == Some(u);
        assert(items[j] == item);
    }
}

/// The items of the default node are the CPUs that the directories name.
proof fn lemma_default_items(facts: Facts, dirs: Seq<CpuDir>, ids: Seq<usize>, u: usize)
    requires
        sysfs::cpu_ids(dirs) == Ok::<_, ErrorView>(ids),
    ensures
        soundness::online_items(facts, builder::ids_as_items(ids)).contains(u) <==> {
            &&& facts.online.cpus.contains(u)
            &&& exists|i: int|
                0 <= i < dirs.len() && sysfs::cpu_dir_id(#[trigger] dirs[i].path@) == Some(u)
        },
{
    broadcast use vstd::seq_lib::group_to_multiset_ensures;

    let items = builder::ids_as_items(ids);
    let item = Ok::<usize, ErrorView>(u);
    let read = dirs.map_values(|dir: CpuDir| sysfs::cpu_dir_id(dir.path@).unwrap());
    law_cpu_ids(dirs, ids);
    assert(ids.contains(u) <==> ids.to_multiset().count(u) > 0);
    assert(read.contains(u) <==> read.to_multiset().count(u) > 0);
    if items.contains(item) {
        let j = choose|j: int| 0 <= j < items.len() && items[j] == item;
        assert(ids[j] == u);
        let i = choose|i: int| 0 <= i < read.len() && read[i] == u;
        assert(sysfs::cpu_dir_id(dirs[i].path@) == Some(u));
    }
    if exists|i: int|
        0 <= i < dirs.len() && sysfs::cpu_dir_id(#[trigger] dirs[i].path@) == Some(u) {
        let i = choose|i: int|
            0 <= i < dirs.len() && sysfs::cpu_dir_id(#[trigger] dirs[i].path@) == Some(u);
        assert(read[i] == u);
        let j = choose|j: int| 0 <= j < ids.len() && ids[j] == u;
        assert(items[j] == item);
    }
}

/// A CPU is in a topology exactly where a node of it spans the CPU.
proof fn lemma_cpu_in_node(facts: Facts, topo: TopologyView, u: usize)
    requires
        topo.sound(facts),
    ensures
        topo.all_cpus.contains_key(u) <==> exists|n: usize| #[trigger]
            topo.nodes.contains_key(n) && topo.nodes[n].span.cpus.contains(u),
{
    if topo.all_cpus.contains_key(u) {
        let (n, l, c) = choose|n: usize, l: usize, c: usize| topo.has_cpu(n, l, c, u);
        assert(topo.has_cpu(n, l, c, u));
        assert(topo.nodes.contains_key(n));
        assert(topo.nodes[n].has_cpu(l, c, u));
        assert(topo.nodes[n].all_cpus.contains_key(u));
    }
    if exists|n: usize| #[trigger]
        topo.nodes.contains_key(n) && topo.nodes[n].span.cpus.contains(u) {
        let n = choose|n: usize| #[trigger]
            topo.nodes.contains_key(n) && topo.nodes[n].span.cpus.contains(u);
        assert(topo.nodes[n].all_cpus.contains_key(u));
        let (l, c) = choose|l: usize, c: usize| topo.nodes[n].has_cpu(l, c, u);
        assert(topo.has_cpu(n, l, c, u));
    }
}

/// A node with a directory has a last one.
proof fn lemma_last_dir(dirs: Seq<NodeDir>, i: int, n: usize) -> (last: int)
    requires
        soundness::dir_of(dirs, i, n),
    ensures
        i <= last,
        soundness::last_dir_of(dirs, last, n),
    decreases dirs.len() - i,
{
    if exists|j: int| i < j && #[trigger] soundness::dir_of(dirs, j, n) {
        let j = choose|j: int| i < j && #[trigger] soundness::dir_of(dirs, j, n);
        lemma_last_dir(dirs, j, n)
    } else {
        assert forall|j: int| i < j < dirs.len() implies sysfs::node_dir_id(
            #[trigger] dirs[j].path@,
        ) != Some(n) by {
            assert(!soundness::dir_of(dirs, j, n));
        }
        i
    }
}

/// A node has one last directory at most.
proof fn lemma_one_last_dir(dirs: Seq<NodeDir>, i: int, j: int, n: usize)
    requires
        soundness::last_dir_of(dirs, i, n),
        soundness::last_dir_of(dirs, j, n),
    ensures
        i == j,
{
    assert(sysfs::node_dir_id(dirs[i].path@) == Some(n));
    assert(sysfs::node_dir_id(dirs[j].path@) == Some(n));
}

/// The nodes of a topology are those with a directory, or else the node 0.
pub proof fn law_nodes(sys: Sysfs, flattened: bool, topo: TopologyView, n: usize)
    requires
        topology::built(sys, flattened) == Ok::<_, ErrorView>(topo),
        topology::nodes_of(sys, topo.span, flattened).ctx.countable(),
    ensures
        topo.nodes.contains_key(n) <==> if !flattened && sys.has_node_dir {
            exists|i: int| #[trigger] soundness::dir_of(sys.node_dirs@, i, n)
        } else {
            n == 0
        },
{
    let made = topology::nodes_of(sys, topo.span, flattened);
    assert(topo.nodes.contains_key(n) == made.nodes.contains_key(n));
    if !flattened && sys.has_node_dir {
        let dirs = sys.node_dirs@;
        soundness::lemma_numa(sys, dirs, topo.span);
        if made.nodes.contains_key(n) {
            let i = choose|i: int| #[trigger] soundness::last_dir_of(dirs, i, n);
            assert(soundness::dir_of(dirs, i, n));
        }
        if exists|i: int| #[trigger] soundness::dir_of(dirs, i, n) {
            let i = choose|i: int| #[trigger] soundness::dir_of(dirs, i, n);
            let last = lemma_last_dir(dirs, i, n);
            assert(soundness::last_dir_of(dirs, last, n));
        }
    } else {
        soundness::lemma_default(sys, topo.span, flattened);
        assert(made.nodes.contains_key(n) == made.nodes.dom().contains(n));
    }
}

/// The nodes that are made span the online CPUs that their directories list.
pub(crate) proof fn lemma_made_spans(
    sys: Sysfs,
    flattened: bool,
    online: CpumaskView,
    n: usize,
    u: usize,
)
    requires
        topology::nodes_of(sys, online, flattened).error is None,
        topology::nodes_of(sys, online, flattened).ctx.countable(),
    ensures
        topology::nodes_of(sys, online, flattened).nodes.contains_key(n) && topology::nodes_of(
            sys,
            online,
            flattened,
        ).nodes[n].span.cpus.contains(u) <==> {
            &&& online.cpus.contains(u)
            &&& lists_at(sys, flattened, n, u)
        },
{
    let facts = builder::facts_of(sys, online, flattened);
    let made = topology::nodes_of(sys, online, flattened);
    if !flattened && sys.has_node_dir {
        let dirs = sys.node_dirs@;
        soundness::lemma_numa(sys, dirs, online);
        if made.nodes.contains_key(n) {
            let i = choose|i: int| #[trigger] soundness::last_dir_of(dirs, i, n);
            assert(soundness::last_dir_of(dirs, i, n));
            lemma_node_items(facts, dirs[i], u);
            if lists_at(sys, flattened, n, u) {
                let j = choose|j: int| #[trigger]
                    soundness::last_dir_of(dirs, j, n) && dir_lists(dirs[j], u);
                lemma_one_last_dir(dirs, i, j, n);
            }
        } else if lists_at(sys, flattened, n, u) {
            let j = choose|j: int| #[trigger]
                soundness::last_dir_of(dirs, j, n) && dir_lists(dirs[j], u);
            assert(soundness::last_dir_of(dirs, j, n));
        }
    } else {
        soundness::lemma_default(sys, online, flattened);
        assert(made.nodes.contains_key(n) == made.nodes.dom().contains(n));
        lemma_default_items(facts, sys.cpu_dirs@, sysfs::cpu_ids(sys.cpu_dirs@)->Ok_0, u);
    }
}

/// Each node spans exactly the online CPUs that its directory lists, and no CPU is
/// listed for a node that the topology lacks.
pub proof fn law_node_spans_its_listed_cpus(
    sys: Sysfs,
    flattened: bool,
    topo: TopologyView,
    n: usize,
    u: usize,
)
    requires
        topology::built(sys, flattened) == Ok::<_, ErrorView>(topo),
        topology::nodes_of(sys, topo.span, flattened).ctx.countable(),
    ensures
        topo.nodes.contains_key(n) && topo.nodes[n].span.cpus.contains(u) <==> {
            &&& topo.span.cpus.contains(u)
            &&& lists_at(sys, flattened, n, u)
        },
{
    let made = topology::nodes_of(sys, topo.span, flattened);
    lemma_made_spans(sys, flattened, topo.span, n, u);
    assert(topo.nodes.contains_key(n) == made.nodes.contains_key(n));
    assert(made.nodes.contains_key(n) ==> topo.nodes[n].span == made.nodes[n].span);
}

/// The CPUs of a topology are exactly the online CPUs that sysfs lists.
pub proof fn law_online_cpus_are_there(sys: Sysfs, flattened: bool, topo: TopologyView, u: usize)
    requires
        topology::built(sys, flattened) == Ok::<_, ErrorView>(topo),
        topology::nodes_of(sys, topo.span, flattened).ctx.countable(),
    ensures
        topo.all_cpus.contains_key(u) <==> topo.span.cpus.contains(u) && lists(sys, flattened, u),
{
    let facts = builder::facts_of(sys, topo.span, flattened);
    law_topology_is_sound(sys, flattened, topo);
    lemma_cpu_in_node(facts, topo, u);
    if topo.all_cpus.contains_key(u) {
        let n = choose|n: usize| #[trigger]
            topo.nodes.contains_key(n) && topo.nodes[n].span.cpus.contains(u);
        law_node_spans_its_listed_cpus(sys, flattened, topo, n, u);
    }
    if topo.span.cpus.contains(u) && lists(sys, flattened, u) {
        let n = choose|n: usize| lists_at(sys, flattened, n, u);
        law_node_spans_its_listed_cpus(sys, flattened, topo, n, u);
    }
}

/// The CPUs of a topology are those that it spans exactly where sysfs lists each online
/// CPU.
pub proof fn law_topology_spans_its_cpus(sys: Sysfs, flattened: bool, topo: TopologyView)
    requires
        topology::built(sys, flattened) == Ok::<_, ErrorView>(topo),
        topology::nodes_of(sys, topo.span, flattened).ctx.countable(),
    ensures
        topo.all_cpus.dom() == topo.span.cpus <==> forall|u: usize| #[trigger]
            topo.span.cpus.contains(u) ==> lists(sys, flattened, u),
{
    assert forall|u: usize| #[trigger] topo.all_cpus.contains_key(u) <==> topo.span.cpus.contains(
        u,
    ) && lists(sys, flattened, u) by {
        law_online_cpus_are_there(sys, flattened, topo, u);
    }
    if topo.all_cpus.dom() == topo.span.cpus {
        assert forall|u: usize| #[trigger] topo.span.cpus.contains(u) implies lists(
            sys,
            flattened,
            u,
        ) by {
            assert(topo.all_cpus.dom().contains(u));
            assert(topo.all_cpus.contains_key(u));
        }
    }
    if forall|u: usize| #[trigger] topo.span.cpus.contains(u) ==> lists(sys, flattened, u) {
        assert forall|u: usize| topo.all_cpus.dom().contains(u) == topo.span.cpus.contains(u) by {
            assert(topo.all_cpus.contains_key(u) == topo.all_cpus.dom().contains(u));
        }
        assert(topo.all_cpus.dom() =~= topo.span.cpus);
    }
}

/// An online CPU is listed for one node at most: a host with an online CPU under two
/// nodes has no topology.
pub proof fn law_cpu_is_under_one_node(
    sys: Sysfs,
    flattened: bool,
    topo: TopologyView,
    n: usize,
    m: usize,
    u: usize,
)
    requires
        topology::built(sys, flattened) == Ok::<_, ErrorView>(topo),
        topology::nodes_of(sys, topo.span, flattened).ctx.countable(),
        topo.span.cpus.contains(u),
        lists_at(sys, flattened, n, u),
        lists_at(sys, flattened, m, u),
    ensures
        n == m,
{
    let facts = builder::facts_of(sys, topo.span, flattened);
    law_topology_is_sound(sys, flattened, topo);
    law_node_spans_its_listed_cpus(sys, flattened, topo, n, u);
    law_node_spans_its_listed_cpus(sys, flattened, topo, m, u);
    let (l, c) = soundness::lemma_spanned_cpu(topo.nodes[n], facts, n, u);
    let (k, d) = soundness::lemma_spanned_cpu(topo.nodes[m], facts, m, u);
    assert(topo.has_cpu(n, l, c, u) && topo.has_cpu(m, k, d, u));
}

/// A topology of the host and a flattened one span the same CPUs. They have the same
/// CPUs exactly where both places that sysfs lists CPUs in agree on the online ones.
pub proof fn law_flattened_has_the_same_cpus(sys: Sysfs, host: TopologyView, flat: TopologyView)
    requires
        topology::built(sys, false) == Ok::<_, ErrorView>(host),
        topology::built(sys, true) == Ok::<_, ErrorView>(flat),
        topology::nodes_of(sys, host.span, false).ctx.countable(),
        topology::nodes_of(sys, flat.span, true).ctx.countable(),
    ensures
        host.span == flat.span,
        host.nr_cpus_online == flat.nr_cpus_online,
        host.all_cpus.dom() == flat.all_cpus.dom() <==> forall|u: usize| #[trigger]
            host.span.cpus.contains(u) ==> (lists(sys, false, u) <==> lists(sys, true, u)),
{
    assert forall|u: usize|
        (#[trigger] host.all_cpus.dom().contains(u) <==> host.span.cpus.contains(u) && lists(
            sys,
            false,
            u,
        )) && (flat.all_cpus.dom().contains(u) <==> host.span.cpus.contains(u) && lists(
            sys,
            true,
            u,
        )) by {
        law_online_cpus_are_there(sys, false, host, u);
        law_online_cpus_are_there(sys, true, flat, u);
    }
    if host.all_cpus.dom() == flat.all_cpus.dom() {
        assert forall|u: usize| #[trigger] host.span.cpus.contains(u) implies (lists(sys, false, u)
            <==> lists(sys, true, u)) by {
            assert(host.all_cpus.dom().contains(u) == flat.all_cpus.dom().contains(u));
        }
    }
    if forall|u: usize| #[trigger]
        host.span.cpus.contains(u) ==> (lists(sys, false, u) <==> lists(sys, true, u)) {
        assert forall|u: usize| host.all_cpus.dom().contains(u) == flat.all_cpus.dom().contains(
            u,
        ) by {
            if host.span.cpus.contains(u) {
                assert(lists(sys, false, u) <==> lists(sys, true, u));
            }
        }
        assert(host.all_cpus.dom() =~= flat.all_cpus.dom());
    }
}

/// Whether each online CPU that a directory lists is listed by the last directory for
/// the same node, too.
pub open spec fn last_dirs_repeat(sys: Sysfs, flattened: bool, online: Set<usize>) -> bool {
    forall|n: usize, u: usize|
        online.contains(u) && #[trigger] lists_under(sys, flattened, n, u) ==> lists_at(
            sys,
            flattened,
            n,
            u,
        )
}

/// Where each node has a single directory, that one lists all that is listed for the
/// node.
pub proof fn law_single_dirs_repeat(sys: Sysfs, flattened: bool, online: Set<usize>)
    requires
        forall|i: int, j: int, n: usize| #[trigger]
            soundness::dir_of(sys.node_dirs@, i, n) && #[trigger] soundness::dir_of(
                sys.node_dirs@,
                j,
                n,
            ) ==> i == j,
    ensures
        last_dirs_repeat(sys, flattened, online),
{
    let dirs = sys.node_dirs@;
    assert forall|n: usize, u: usize|
        online.contains(u) && #[trigger] lists_under(sys, flattened, n, u) implies lists_at(
        sys,
        flattened,
        n,
        u,
    ) by {
        if !flattened && sys.has_node_dir {
            let i = choose|i: int| #[trigger]
                soundness::dir_of(dirs, i, n) && dir_lists(dirs[i], u);
            let last = lemma_last_dir(dirs, i, n);
            assert(soundness::dir_of(dirs, last, n));
            assert(soundness::last_dir_of(dirs, i, n));
        }
    }
}

/// Where the last directories repeat what the others for their node list, every online
/// CPU in any directory is in the topology.
pub proof fn law_cpus_of_all_dirs_are_there(
    sys: Sysfs,
    flattened: bool,
    topo: TopologyView,
    n: usize,
    u: usize,
)
    requires
        topology::built(sys, flattened) == Ok::<_, ErrorView>(topo),
        topology::nodes_of(sys, topo.span, flattened).ctx.countable(),
        last_dirs_repeat(sys, flattened, topo.span.cpus),
        topo.span.cpus.contains(u),
        lists_under(sys, flattened, n, u),
    ensures
        topo.all_cpus.contains_key(u),
{
    assert(lists_at(sys, flattened, n, u));
    law_online_cpus_are_there(sys, flattened, topo, u);
}

/// Each node has the GPUs that were found at it.
pub proof fn law_gpus_are_at_their_node(sys: Sysfs, flattened: bool, topo: TopologyView, n: usize)
    requires
        topology::built(sys, flattened) == Ok::<_, ErrorView>(topo),
        topology::nodes_of(sys, topo.span, flattened).ctx.countable(),
        topo.nodes.contains_key(n),
    ensures
        topo.nodes[n].gpus == builder::gpus_of_node(sys.gpus@, n),
{
    let made = topology::nodes_of(sys, topo.span, flattened);
    assert(made.nodes.contains_key(n));
    if !flattened && sys.has_node_dir {
        soundness::lemma_numa(sys, sys.node_dirs@, topo.span);
        let i = choose|i: int| #[trigger] soundness::last_dir_of(sys.node_dirs@, i, n);
        assert(soundness::last_dir_of(sys.node_dirs@, i, n));
    } else {
        soundness::lemma_default(sys, topo.span, flattened);
        assert(made.nodes.dom().contains(n));
    }
}

/// The GPUs of a topology are those of all its nodes.
pub proof fn law_gpus_of_all_nodes(topo: TopologyView, index: GpuIndex)
    requires
        topo.nodes.dom().finite(),
    ensures
        topology::gather(
            order::sorted(topo.nodes.dom()),
            |n: usize| topo.nodes[n].gpus,
        ).contains_key(index) <==> exists|n: usize| #[trigger]
            topo.nodes.contains_key(n) && topo.nodes[n].gpus.contains_key(index),
{
    let part = |n: usize| topo.nodes[n].gpus;
    let keys = order::sorted(topo.nodes.dom());
    order::lemma_sorted(topo.nodes.dom());
    indices::lemma_gather_keys(keys, part, index);
    if exists|n: usize| #[trigger]
        topo.nodes.contains_key(n) && topo.nodes[n].gpus.contains_key(index) {
        let n = choose|n: usize| #[trigger]
            topo.nodes.contains_key(n) && topo.nodes[n].gpus.contains_key(index);
        assert(keys.contains(n));
        let i = choose|i: int| 0 <= i < keys.len() && keys[i] == n;
        assert(part(keys[i]).contains_key(index));
    }
    if topology::gather(keys, part).contains_key(index) {
        let i = choose|i: int| 0 <= i < keys.len() && part(#[trigger] keys[i]).contains_key(index);
        assert(keys.contains(keys[i]));
        assert(topo.nodes.contains_key(keys[i]));
    }
}

/// Without NUMA nodes, or flattened, a topology has the single node 0.
pub proof fn law_single_node(sys: Sysfs, flattened: bool, topo: TopologyView)
    requires
        topology::built(sys, flattened) == Ok::<_, ErrorView>(topo),
        topology::nodes_of(sys, topo.span, flattened).ctx.countable(),
        flattened || !sys.has_node_dir,
    ensures
        topo.nodes.dom() == set![0usize],
{
    let made = topology::nodes_of(sys, topo.span, flattened);
    soundness::lemma_default(sys, topo.span, flattened);
    assert(topo.nodes.dom() =~= made.nodes.dom());
}

/// A flattened topology has no LLC but the LLC 0 of the node 0, which stands for the
/// kernel ID 0.
pub proof fn law_flattened_llc(sys: Sysfs, topo: TopologyView, n: usize, l: usize)
    requires
        topology::built(sys, true) == Ok::<_, ErrorView>(topo),
        topology::nodes_of(sys, topo.span, true).ctx.countable(),
        topo.has_llc(n, l),
    ensures
        n == 0,
        l == 0,
        topo.all_llcs[l].kernel_id == 0,
{
    law_topology_is_sound(sys, true, topo);
    law_single_node(sys, true, topo);
    soundness::lemma_flattened(sys, topo.span);
    assert(topo.nodes.dom().contains(n));
    let node = topology::nodes_of(sys, topo.span, true).nodes[0];
    assert(node.llcs.contains_key(l));
    assert(topo.all_llcs[l].kernel_id == node.llcs[l].kernel_id);
}

/// Whether all numbers below one of the numbers are among them.
pub open spec fn no_gaps(ids: Set<usize>) -> bool {
    forall|a: usize, b: usize| #[trigger] ids.contains(a) && b < a ==> #[trigger] ids.contains(b)
}

/// The cores that a topology has, by node and kernel ID: those of the online CPUs that
/// sysfs lists.
pub open spec fn listed_cores(sys: Sysfs, online: CpumaskView, flattened: bool) -> Set<
    (usize, usize),
> {
    Set::new(
        |k: (usize, usize)|
            exists|u: usize|
                online.cpus.contains(u) && #[trigger] lists_at(sys, flattened, k.0, u)
                    && builder::facts_of(sys, online, flattened).of(u).core_id == Some(k.1),
    )
}

/// The LLCs that a topology has, by node and kernel ID: those of the online CPUs that
/// sysfs lists.
pub open spec fn listed_llcs(sys: Sysfs, online: CpumaskView, flattened: bool) -> Set<
    (usize, usize),
> {
    Set::new(
        |k: (usize, usize)|
            exists|u: usize|
                online.cpus.contains(u) && #[trigger] lists_at(sys, flattened, k.0, u)
                    && builder::facts_of(sys, online, flattened).llc_kernel_id(u) == k.1,
    )
}

/// Whether `key` has the ID `id`.
pub open spec fn has_id(
    ids: Map<(usize, usize), usize>,
    key: (usize, usize),
    id: usize,
) -> bool {
    ids.contains_key(key) && ids[key] == id
}

/// The cores of a topology have the IDs that were given out for the cores of its CPUs.
pub proof fn law_core_ids(sys: Sysfs, flattened: bool, topo: TopologyView, c: usize)
    requires
        topology::built(sys, flattened) == Ok::<_, ErrorView>(topo),
        topology::nodes_of(sys, topo.span, flattened).ctx.countable(),
    ensures
        topo.all_cores.contains_key(c) <==> exists|k: (usize, usize)| #[trigger]
            has_id(topology::nodes_of(sys, topo.span, flattened).ctx.cores, k, c) && listed_cores(
                sys,
                topo.span,
                flattened,
            ).contains(k),
{
    let facts = builder::facts_of(sys, topo.span, flattened);
    let made = topology::nodes_of(sys, topo.span, flattened);
    let ids = made.ctx.cores;
    let listed = listed_cores(sys, topo.span, flattened);
    law_topology_is_sound(sys, flattened, topo);
    soundness::lemma_nodes(sys, topo.span, flattened);
    if topo.all_cores.contains_key(c) {
        let (n, l) = choose|n: usize, l: usize| topo.has_core(n, l, c);
        assert(topo.has_core(n, l, c));
        let llc = topo.nodes[n].llcs[l];
        let core = llc.cores[c];
        assert(llc.sound(facts, l, n));
        assert(core.sound(facts, c, l, llc.kernel_id, n));
        let u = choose|u: usize| #[trigger]
            core.cpus.contains_key(u) && facts.core_type(u) == core.core_type;
        soundness::lemma_cpu_is_spanned(topo.nodes[n], facts, n, l, c, u);
        law_node_spans_its_listed_cpus(sys, flattened, topo, n, u);
        let k = (n, core.kernel_id);
        assert(lists_at(sys, flattened, k.0, u));
        assert(listed.contains(k));
        assert(made.nodes.contains_key(n));
        assert(made.ctx.names(made.nodes[n]));
        assert(made.nodes[n].llcs.contains_key(l) && made.nodes[n].llcs[l].cores.contains_key(c));
        assert(has_id(ids, k, c));
    }
    if exists|k: (usize, usize)| #[trigger] has_id(ids, k, c) && listed.contains(k) {
        let k = choose|k: (usize, usize)| #[trigger] has_id(ids, k, c) && listed.contains(k);
        let n = k.0;
        let u = choose|u: usize|
            facts.online.cpus.contains(u) && #[trigger] lists_at(sys, flattened, n, u) && facts.of(
                u,
            ).core_id == Some(k.1);
        law_node_spans_its_listed_cpus(sys, flattened, topo, n, u);
        assert(made.nodes.contains_key(n));
        let node = made.nodes[n];
        assert(node.sound(facts, n) && made.ctx.names(node));
        assert(node.span.cpus.contains(u));
        let (l, d) = soundness::lemma_spanned_cpu(node, facts, n, u);
        let llc = node.llcs[l];
        assert(llc.sound(facts, l, n));
        assert(llc.cores[d].sound(facts, d, l, llc.kernel_id, n));
        assert(llc.cores[d].cpus.contains_key(u));
        assert(node.llcs.contains_key(l) && llc.cores.contains_key(d));
        assert(ids[k] == d);
        assert(topo.has_core(n, l, d));
    }
}

/// The LLCs of a topology have the IDs that were given out for the LLCs of its CPUs.
pub proof fn law_llc_ids(sys: Sysfs, flattened: bool, topo: TopologyView, l: usize)
    requires
        topology::built(sys, flattened) == Ok::<_, ErrorView>(topo),
        topology::nodes_of(sys, topo.span, flattened).ctx.countable(),
    ensures
        topo.all_llcs.contains_key(l) <==> exists|k: (usize, usize)| #[trigger]
            has_id(topology::nodes_of(sys, topo.span, flattened).ctx.llcs, k, l) && listed_llcs(
                sys,
                topo.span,
                flattened,
            ).contains(k),
{
    let facts = builder::facts_of(sys, topo.span, flattened);
    let made = topology::nodes_of(sys, topo.span, flattened);
    let ids = made.ctx.llcs;
    let listed = listed_llcs(sys, topo.span, flattened);
    law_topology_is_sound(sys, flattened, topo);
    soundness::lemma_nodes(sys, topo.span, flattened);
    if topo.all_llcs.contains_key(l) {
        let n = choose|n: usize| topo.has_llc(n, l);
        assert(topo.has_llc(n, l));
        let llc = topo.nodes[n].llcs[l];
        assert(llc.sound(facts, l, n));
        let c = choose|c: usize| #[trigger] llc.cores.contains_key(c);
        let core = llc.cores[c];
        assert(core.sound(facts, c, l, llc.kernel_id, n));
        let u = choose|u: usize| #[trigger]
            core.cpus.contains_key(u) && facts.core_type(u) == core.core_type;
        soundness::lemma_cpu_is_spanned(topo.nodes[n], facts, n, l, c, u);
        law_node_spans_its_listed_cpus(sys, flattened, topo, n, u);
        let k = (n, llc.kernel_id);
        assert(lists_at(sys, flattened, k.0, u));
        assert(listed.contains(k));
        assert(made.nodes.contains_key(n));
        assert(made.ctx.names(made.nodes[n]));
        assert(made.nodes[n].llcs.contains_key(l));
        assert(has_id(ids, k, l));
    }
    if exists|k: (usize, usize)| #[trigger] has_id(ids, k, l) && listed.contains(k) {
        let k = choose|k: (usize, usize)| #[trigger] has_id(ids, k, l) && listed.contains(k);
        let n = k.0;
        let u = choose|u: usize|
            facts.online.cpus.contains(u) && #[trigger] lists_at(sys, flattened, n, u)
                && facts.llc_kernel_id(u) == k.1;
        law_node_spans_its_listed_cpus(sys, flattened, topo, n, u);
        assert(made.nodes.contains_key(n));
        let node = made.nodes[n];
        assert(node.sound(facts, n) && made.ctx.names(node));
        assert(node.span.cpus.contains(u));
        let (m, d) = soundness::lemma_spanned_cpu(node, facts, n, u);
        let llc = node.llcs[m];
        assert(llc.sound(facts, m, n));
        assert(llc.cores[d].sound(facts, d, m, llc.kernel_id, n));
        assert(llc.cores[d].cpus.contains_key(u));
        assert(node.llcs.contains_key(m));
        assert(ids[k] == m);
        assert(topo.has_llc(n, m));
    }
}

/// Whether the keys that are not used got their IDs after all that are.
pub open spec fn unused_come_last(
    ids: Map<(usize, usize), usize>,
    used: Set<(usize, usize)>,
) -> bool {
    forall|j: (usize, usize), k: (usize, usize)| #[trigger]
        ids.contains_key(j) && #[trigger] ids.contains_key(k) && used.contains(j)
            && !used.contains(k) ==> ids[j] < ids[k]
}

proof fn lemma_gaps(ids: Map<(usize, usize), usize>, used: Set<(usize, usize)>, left: Set<usize>)
    requires
        soundness::ids_sound(ids),
        forall|id: usize| #[trigger]
            left.contains(id) <==> exists|k: (usize, usize)| #[trigger]
                has_id(ids, k, id) && used.contains(k),
    ensures
        no_gaps(left) <==> unused_come_last(ids, used),
{
    if no_gaps(left) {
        assert forall|j: (usize, usize), k: (usize, usize)| #[trigger]
            ids.contains_key(j) && #[trigger] ids.contains_key(k) && used.contains(j)
            && !used.contains(k) implies ids[j] < ids[k] by {
            assert(has_id(ids, j, ids[j]));
            assert(left.contains(ids[j]));
            if ids[k] < ids[j] {
                assert(left.contains(ids[k]));
                let other = choose|other: (usize, usize)| #[trigger]
                    has_id(ids, other, ids[k]) && used.contains(other);
                assert(ids.contains_key(other));
            }
        }
    }
    if unused_come_last(ids, used) {
        assert forall|a: usize, b: usize| #[trigger] left.contains(a) && b < a implies #[trigger]
            left.contains(b) by {
            let j = choose|j: (usize, usize)| #[trigger] has_id(ids, j, a) && used.contains(j);
            assert(ids.contains_key(j));
            assert(soundness::given_out(ids, b));
            let k = choose|k: (usize, usize)| #[trigger] ids.contains_key(k) && ids[k] == b;
            assert(has_id(ids, k, b));
        }
    }
}

/// The IDs of the cores are the numbers from 0 on without a gap exactly where no ID was
/// given out, before that of a core in the topology, for a core that is not in it. The
/// same holds of the LLCs. An ID is left unused only by a NUMA directory that another
/// one for the same node replaced.
pub proof fn law_ids_have_no_gaps(sys: Sysfs, flattened: bool, topo: TopologyView)
    requires
        topology::built(sys, flattened) == Ok::<_, ErrorView>(topo),
        topology::nodes_of(sys, topo.span, flattened).ctx.countable(),
    ensures
        no_gaps(topo.all_cores.dom()) <==> unused_come_last(
            topology::nodes_of(sys, topo.span, flattened).ctx.cores,
            listed_cores(sys, topo.span, flattened),
        ),
        no_gaps(topo.all_llcs.dom()) <==> unused_come_last(
            topology::nodes_of(sys, topo.span, flattened).ctx.llcs,
            listed_llcs(sys, topo.span, flattened),
        ),
{
    let made = topology::nodes_of(sys, topo.span, flattened);
    let cores = listed_cores(sys, topo.span, flattened);
    let llcs = listed_llcs(sys, topo.span, flattened);
    soundness::lemma_nodes(sys, topo.span, flattened);
    assert forall|c: usize| #[trigger] topo.all_cores.dom().contains(c) <==> exists|
        k: (usize, usize),
    | #[trigger]
        has_id(made.ctx.cores, k, c) && cores.contains(k) by {
        law_core_ids(sys, flattened, topo, c);
    }
    lemma_gaps(made.ctx.cores, cores, topo.all_cores.dom());
    assert forall|l: usize| #[trigger] topo.all_llcs.dom().contains(l) <==> exists|
        k: (usize, usize),
    | #[trigger]
        has_id(made.ctx.llcs, k, l) && llcs.contains(k) by {
        law_llc_ids(sys, flattened, topo, l);
    }
    lemma_gaps(made.ctx.llcs, llcs, topo.all_llcs.dom());
}

/// Where each online CPU in a directory has its core and its LLC from a CPU in the last
/// directory for the same node, too, the IDs of the cores and of the LLCs have no gap.
pub proof fn law_repeated_names_leave_no_gaps(sys: Sysfs, flattened: bool, topo: TopologyView)
    requires
        topology::built(sys, flattened) == Ok::<_, ErrorView>(topo),
        topology::nodes_of(sys, topo.span, flattened).ctx.countable(),
        last_dirs_name_all(sys, topo.span, flattened),
    ensures
        no_gaps(topo.all_cores.dom()),
        no_gaps(topo.all_llcs.dom()),
{
    let made = topology::nodes_of(sys, topo.span, flattened);
    law_ids_have_no_gaps(sys, flattened, topo);
    assert forall|k: (usize, usize)| #[trigger] made.ctx.cores.contains_key(k) implies listed_cores(
        sys,
        topo.span,
        flattened,
    ).contains(k) by {
        lemma_named_core(sys, flattened, topo, k);
    }
    assert forall|k: (usize, usize)| #[trigger] made.ctx.llcs.contains_key(k) implies listed_llcs(
        sys,
        topo.span,
        flattened,
    ).contains(k) by {
        lemma_named_llc(sys, flattened, topo, k);
    }
}

/// Whether each online CPU in a directory for a node has a core and an LLC that the last
/// directory for this node names as well.
pub open spec fn last_dirs_name_all(sys: Sysfs, online: CpumaskView, flattened: bool) -> bool {
    let facts = builder::facts_of(sys, online, flattened);
    forall|n: usize, u: usize|
        online.cpus.contains(u) && #[trigger] lists_under(sys, flattened, n, u) ==> {
            &&& facts.of(u).core_id matches Some(kernel_id) ==> listed_cores(
                sys,
                online,
                flattened,
            ).contains((n, kernel_id))
            &&& listed_llcs(sys, online, flattened).contains((n, facts.llc_kernel_id(u)))
        }
}

/// Where the last directories repeat what the others for their node list, they name all
/// cores and LLCs.
pub proof fn law_repeating_dirs_name_all(sys: Sysfs, online: CpumaskView, flattened: bool)
    requires
        last_dirs_repeat(sys, flattened, online.cpus),
    ensures
        last_dirs_name_all(sys, online, flattened),
{
    let facts = builder::facts_of(sys, online, flattened);
    assert forall|n: usize, u: usize|
        online.cpus.contains(u) && #[trigger] lists_under(sys, flattened, n, u) implies {
        &&& facts.of(u).core_id matches Some(kernel_id) ==> listed_cores(
            sys,
            online,
            flattened,
        ).contains((n, kernel_id))
        &&& listed_llcs(sys, online, flattened).contains((n, facts.llc_kernel_id(u)))
    } by {
        assert(lists_at(sys, flattened, n, u));
        let llc = (n, facts.llc_kernel_id(u));
        assert(lists_at(sys, flattened, llc.0, u));
        if facts.of(u).core_id is Some {
            let core = (n, facts.of(u).core_id.unwrap());
            assert(lists_at(sys, flattened, core.0, u));
            assert(listed_cores(sys, online, flattened).contains(core));
        }
    }
}

/// A core that an ID was given out for is that of an online CPU in a directory for its
/// node.
proof fn lemma_named_core(sys: Sysfs, flattened: bool, topo: TopologyView, k: (usize, usize))
    requires
        topology::built(sys, flattened) == Ok::<_, ErrorView>(topo),
        topology::nodes_of(sys, topo.span, flattened).ctx.countable(),
        last_dirs_name_all(sys, topo.span, flattened),
        topology::nodes_of(sys, topo.span, flattened).ctx.cores.contains_key(k),
    ensures
        listed_cores(sys, topo.span, flattened).contains(k),
{
    let facts = builder::facts_of(sys, topo.span, flattened);
    if !flattened && sys.has_node_dir {
        let dirs = sys.node_dirs@;
        soundness::lemma_numa(sys, dirs, topo.span);
        let i = choose|i: int| #[trigger]
            soundness::dir_of(dirs, i, k.0) && soundness::names_core(
                facts,
                soundness::online_items(facts, builder::node_items(dirs[i])),
                k.1,
            );
        let u = choose|u: usize| #[trigger]
            soundness::online_items(facts, builder::node_items(dirs[i])).contains(u) && facts.of(
                u,
            ).core_id == Some(k.1);
        lemma_node_items(facts, dirs[i], u);
        assert(lists_under(sys, flattened, k.0, u));
    } else {
        soundness::lemma_default(sys, topo.span, flattened);
        let made = topology::nodes_of(sys, topo.span, flattened);
        let u = choose|u: usize| #[trigger]
            made.nodes[0].span.cpus.contains(u) && facts.of(u).core_id == Some(k.1);
        lemma_default_items(facts, sys.cpu_dirs@, sysfs::cpu_ids(sys.cpu_dirs@)->Ok_0, u);
        assert(lists_under(sys, flattened, k.0, u));
    }
}

/// An LLC that an ID was given out for is that of an online CPU in a directory for its
/// node.
proof fn lemma_named_llc(sys: Sysfs, flattened: bool, topo: TopologyView, k: (usize, usize))
    requires
        topology::built(sys, flattened) == Ok::<_, ErrorView>(topo),
        topology::nodes_of(sys, topo.span, flattened).ctx.countable(),
        last_dirs_name_all(sys, topo.span, flattened),
        topology::nodes_of(sys, topo.span, flattened).ctx.llcs.contains_key(k),
    ensures
        listed_llcs(sys, topo.span, flattened).contains(k),
{
    let facts = builder::facts_of(sys, topo.span, flattened);
    if !flattened && sys.has_node_dir {
        let dirs = sys.node_dirs@;
        soundness::lemma_numa(sys, dirs, topo.span);
        let i = choose|i: int| #[trigger]
            soundness::dir_of(dirs, i, k.0) && soundness::names_llc(
                facts,
                soundness::online_items(facts, builder::node_items(dirs[i])),
                k.1,
            );
        let u = choose|u: usize| #[trigger]
            soundness::online_items(facts, builder::node_items(dirs[i])).contains(u)
                && facts.llc_kernel_id(u) == k.1;
        lemma_node_items(facts, dirs[i], u);
        assert(lists_under(sys, flattened, k.0, u));
    } else {
        soundness::lemma_default(sys, topo.span, flattened);
        let made = topology::nodes_of(sys, topo.span, flattened);
        let u = choose|u: usize| #[trigger]
            made.nodes[0].span.cpus.contains(u) && facts.llc_kernel_id(u) == k.1;
        lemma_default_items(facts, sys.cpu_dirs@, sysfs::cpu_ids(sys.cpu_dirs@)->Ok_0, u);
        assert(lists_under(sys, flattened, k.0, u));
    }
}

/// Where no frequency is known, all cores are big ones without turbo.
pub proof fn law_without_frequencies_no_little_core(facts: Facts, topo: TopologyView, c: usize)
    requires
        topo.sound(facts),
        facts.avg_cpu_freq is None,
        topo.all_cores.contains_key(c),
    ensures
        topo.all_cores[c].core_type == (CoreType::Big { turbo: false }),
{
    let (n, l) = choose|n: usize, l: usize| topo.has_core(n, l, c);
    assert(topo.has_core(n, l, c));
    let llc = topo.nodes[n].llcs[l];
    assert(llc.sound(facts, l, n));
    let core = llc.cores[c];
    assert(core.sound(facts, c, l, llc.kernel_id, n));
    let u = choose|u: usize| #[trigger]
        core.cpus.contains_key(u) && facts.core_type(u) == core.core_type;
}

/// A CPU of a core is in the topology, with the ID of the core.
proof fn lemma_cpu_of_core(facts: Facts, topo: TopologyView, c: usize, u: usize)
    requires
        topo.sound(facts),
        topo.all_cores.contains_key(c),
        topo.all_cores[c].cpus.contains_key(u),
    ensures
        topo.all_cpus.contains_key(u),
        topo.all_cpus[u].core_id == c,
{
    let (n, l) = choose|n: usize, l: usize| topo.has_core(n, l, c);
    assert(topo.has_core(n, l, c));
    let llc = topo.nodes[n].llcs[l];
    assert(llc.sound(facts, l, n));
    assert(llc.cores[c].sound(facts, c, l, llc.kernel_id, n));
    assert(topo.has_cpu(n, l, c, u));
    assert(llc.cores[c].cpus[u] == facts.cpu(u, c, l, n));
}

/// A CPU of the topology is a CPU of its core.
proof fn lemma_core_of_cpu(facts: Facts, topo: TopologyView, u: usize)
    requires
        topo.sound(facts),
        topo.all_cpus.contains_key(u),
    ensures
        topo.all_cores.contains_key(topo.all_cpus[u].core_id),
        topo.all_cores[topo.all_cpus[u].core_id].cpus.contains_key(u),
{
    let (n, l, c) = choose|n: usize, l: usize, c: usize| topo.has_cpu(n, l, c, u);
    assert(topo.has_cpu(n, l, c, u));
    assert(topo.has_core(n, l, c));
    lemma_cpu_of_core(facts, topo, c, u);
}

/// The CPUs of a core are finitely many.
pub(crate) proof fn lemma_core_finite(facts: Facts, topo: TopologyView, c: usize)
    requires
        topo.sound(facts),
        topo.all_cores.contains_key(c),
    ensures
        topo.all_cores[c].cpus.dom().finite(),
{
    let (n, l) = choose|n: usize, l: usize| topo.has_core(n, l, c);
    assert(topo.has_core(n, l, c));
    let llc = topo.nodes[n].llcs[l];
    assert(llc.sound(facts, l, n));
    assert(llc.cores[c].sound(facts, c, l, llc.kernel_id, n));
}

/// The two lowest CPUs of a core are two CPUs of it.
proof fn lemma_pair(core: CoreView)
    requires
        core.cpus.dom().finite(),
    ensures
        core.pair() matches Some((a, b)) ==> {
            &&& a < b
            &&& core.cpus.contains_key(a)
            &&& core.cpus.contains_key(b)
        },
{
    let ids = order::sorted(core.cpus.dom());
    order::lemma_sorted(core.cpus.dom());
    if ids.len() >= 2 {
        assert(ids.contains(ids[0]) && ids.contains(ids[1]));
    }
}

/// Siblings are siblings of each other: two different CPUs of one core. A CPU has none
/// exactly where it is not among the two lowest CPUs of a core.
pub proof fn law_siblings(facts: Facts, topo: TopologyView, sibling: Seq<i32>, u: usize)
    requires
        topo.sound(facts),
        topo.siblings_below(sibling.len()),
        topo.maps_siblings(sibling),
        u < sibling.len(),
    ensures
        sibling[u as int] == -1 <==> forall|c: usize| !topo.paired_in(c, u),
        sibling[u as int] != -1 ==> {
            let v = sibling[u as int] as usize;
            &&& 0 <= sibling[u as int] < sibling.len()
            &&& v != u
            &&& sibling[v as int] == u
            &&& topo.all_cpus.contains_key(u)
            &&& topo.all_cpus.contains_key(v)
            &&& topo.all_cpus[u].core_id == topo.all_cpus[v].core_id
        },
{
    if exists|c: usize| topo.paired_in(c, u) {
        let c = choose|c: usize| topo.paired_in(c, u);
        let core = topo.all_cores[c];
        let v = core.partner(u);
        lemma_core_finite(facts, topo, c);
        lemma_pair(core);
        assert(topo.paired_in(c, v));
        assert(core.partner(v) == u);
        lemma_paired_once(facts, topo, c, u);
        lemma_paired_once(facts, topo, c, v);
        assert(sibling[u as int] == v);
        assert(sibling[v as int] == u);
        lemma_cpu_of_core(facts, topo, c, u);
        lemma_cpu_of_core(facts, topo, c, v);
    }
}

/// A CPU is among the two lowest CPUs of one core at most.
pub(crate) proof fn lemma_paired_once(facts: Facts, topo: TopologyView, c: usize, u: usize)
    requires
        topo.sound(facts),
        topo.paired_in(c, u),
    ensures
        topo.last_paired_in(c, u),
{
    lemma_core_finite(facts, topo, c);
    lemma_pair(topo.all_cores[c]);
    lemma_cpu_of_core(facts, topo, c, u);
    assert forall|d: usize| #[trigger] topo.paired_in(d, u) implies d <= c by {
        lemma_core_finite(facts, topo, d);
        lemma_pair(topo.all_cores[d]);
        lemma_cpu_of_core(facts, topo, d, u);
    }
}

/// Where a core has exactly two CPUs, each is the sibling of the other.
pub proof fn law_siblings_of_two(
    facts: Facts,
    topo: TopologyView,
    sibling: Seq<i32>,
    c: usize,
    u: usize,
    v: usize,
)
    requires
        topo.sound(facts),
        topo.siblings_below(sibling.len()),
        topo.maps_siblings(sibling),
        topo.all_cores.contains_key(c),
        topo.all_cores[c].cpus.dom() == set![u, v],
        u < v,
    ensures
        v < sibling.len(),
        sibling[u as int] == v,
        sibling[v as int] == u,
{
    let core = topo.all_cores[c];
    let ids = seq![u, v];
    assert(ids.to_set() =~= set![u, v]) by {
        assert forall|w: usize| ids.to_set().contains(w) == set![u, v].contains(w) by {
            assert(ids[0] == u && ids[1] == v);
        }
    }
    order::lemma_sorted_is(ids);
    assert(core.pair() == Some((u, v)));
    assert(topo.paired_in(c, u) && topo.paired_in(c, v));
    lemma_paired_once(facts, topo, c, u);
    lemma_paired_once(facts, topo, c, v);
}

/// A topology map has a row for each core, in the order of the IDs, with the CPUs of
/// the core. Each CPU of the topology is in exactly one row, that of its core.
pub proof fn law_rows(facts: Facts, topo: TopologyView)
    requires
        topo.sound(facts),
    ensures
        topo.rows().len() == topo.all_cores.dom().len(),
        forall|u: usize| #[trigger]
            topo.all_cpus.contains_key(u) <==> topology_map::some_row_with(topo.rows(), u),
        forall|i: int, u: usize|
            0 <= i < topo.rows().len() ==> (#[trigger] topo.rows()[i].contains(u) <==> {
                &&& topo.all_cpus.contains_key(u)
                &&& topo.all_cpus[u].core_id == order::sorted(topo.all_cores.dom())[i]
            }),
        forall|i: int, u: usize|
            0 <= i < topo.rows().len() && #[trigger] topo.rows()[i].contains(u)
                ==> topology_map::last_row_with(topo.rows(), i, u),
{
    let cores = order::sorted(topo.all_cores.dom());
    let rows = topo.rows();
    order::lemma_sorted(topo.all_cores.dom());
    assert(cores.no_duplicates());
    cores.unique_seq_to_set();
    assert forall|i: int, u: usize| 0 <= i < rows.len() implies (#[trigger] rows[i].contains(u)
        <==> {
        &&& topo.all_cpus.contains_key(u)
        &&& topo.all_cpus[u].core_id == cores[i]
    }) by {
        let c = cores[i];
        assert(cores.contains(c));
        let core = topo.all_cores[c];
        lemma_core_finite(facts, topo, c);
        order::lemma_sorted(core.cpus.dom());
        assert(rows[i] == order::sorted(core.cpus.dom()));
        if core.cpus.contains_key(u) {
            lemma_cpu_of_core(facts, topo, c, u);
        }
        if topo.all_cpus.contains_key(u) {
            lemma_core_of_cpu(facts, topo, u);
        }
    }
    assert forall|u: usize| #[trigger]
        topo.all_cpus.contains_key(u) implies topology_map::some_row_with(rows, u) by {
        let c = topo.all_cpus[u].core_id;
        lemma_core_of_cpu(facts, topo, u);
        assert(cores.contains(c));
        let i = choose|i: int| 0 <= i < cores.len() && cores[i] == c;
        assert(rows[i].contains(u));
    }
    assert forall|i: int, u: usize|
        0 <= i < rows.len() && #[trigger] rows[i].contains(u) implies topology_map::last_row_with(
        rows,
        i,
        u,
    ) by {
        assert forall|later: int| i < later < rows.len() implies !(
        #[trigger] rows[later]).contains(u) by {
            assert(cores[i] < cores[later]);
        }
    }
}

/// Ascending numbers without a gap from 0 on are their own positions.
proof fn lemma_positions(s: Seq<usize>, i: int)
    requires
        order::ascending(s),
        no_gaps(s.to_set()),
        0 <= i < s.len(),
    ensures
        s[i] == i,
    decreases i,
{
    assert(s.contains(s[i]));
    assert(s.to_set().contains(s[i]));
    if i > 0 {
        lemma_positions(s, i - 1);
    }
    if s[i] > i {
        let hole = i as usize;
        assert(s.to_set().contains(hole));
        let j = choose|j: int| 0 <= j < s.len() && s[j] == hole;
        if j < i {
            assert(s[j] <= s[i - 1]);
        }
    }
}

/// The mapping of a topology map gives each CPU the position of its core among all cores,
/// which is the row with the CPUs of this core.
pub proof fn law_mapping_gives_cores(facts: Facts, topo: TopologyView, ids: Seq<usize>, u: usize)
    requires
        topo.sound(facts),
        topology_map::maps_cpus(ids, topo.rows()),
        topo.all_cpus.contains_key(u),
    ensures
        u < ids.len(),
        ids[u as int] < topo.all_cores.dom().len(),
        order::sorted(topo.all_cores.dom())[ids[u as int] as int] == topo.all_cpus[u].core_id,
        topo.rows()[ids[u as int] as int].contains(u),
{
    let cores = order::sorted(topo.all_cores.dom());
    let c = topo.all_cpus[u].core_id;
    order::lemma_sorted(topo.all_cores.dom());
    law_rows(facts, topo);
    lemma_core_of_cpu(facts, topo, u);
    assert(cores.contains(c));
    let i = choose|i: int| 0 <= i < cores.len() && cores[i] == c;
    assert(topo.rows()[i].contains(u));
    assert(topology_map::last_row_with(topo.rows(), i, u));
    assert(topology_map::some_row_with(topo.rows(), u));
}

/// The mapping of a topology map gives each CPU the ID of its core exactly where the IDs
/// of the cores have no gap.
pub proof fn law_mapping_gives_core_ids(facts: Facts, topo: TopologyView, ids: Seq<usize>)
    requires
        topo.sound(facts),
        topology_map::maps_cpus(ids, topo.rows()),
    ensures
        no_gaps(topo.all_cores.dom()) <==> forall|u: usize| #[trigger]
            topo.all_cpus.contains_key(u) ==> ids[u as int] == topo.all_cpus[u].core_id,
{
    let dom = topo.all_cores.dom();
    let cores = order::sorted(dom);
    order::lemma_sorted(dom);
    cores.unique_seq_to_set();
    if no_gaps(dom) {
        assert forall|u: usize| #[trigger] topo.all_cpus.contains_key(u) implies ids[u as int]
            == topo.all_cpus[u].core_id by {
            law_mapping_gives_cores(facts, topo, ids, u);
            lemma_positions(cores, ids[u as int] as int);
        }
    }
    if forall|u: usize| #[trigger]
        topo.all_cpus.contains_key(u) ==> ids[u as int] == topo.all_cpus[u].core_id {
        assert forall|i: int| 0 <= i < cores.len() implies #[trigger] cores[i] == i by {
            assert(cores.contains(cores[i]));
            let u = lemma_core_has_cpu(facts, topo, cores[i]);
            lemma_cpu_of_core(facts, topo, cores[i], u);
            law_mapping_gives_cores(facts, topo, ids, u);
        }
        assert forall|a: usize, b: usize| #[trigger] dom.contains(a) && b < a implies #[trigger]
            dom.contains(b) by {
            assert(cores.contains(a));
            let i = choose|i: int| 0 <= i < cores.len() && cores[i] == a;
            assert(cores[b as int] == b);
            assert(cores.contains(b));
        }
    }
}

/// Every core has a CPU.
proof fn lemma_core_has_cpu(facts: Facts, topo: TopologyView, c: usize) -> (u: usize)
    requires
        topo.sound(facts),
        topo.all_cores.contains_key(c),
    ensures
        topo.all_cores[c].cpus.contains_key(u),
{
    let (n, l) = choose|n: usize, l: usize| topo.has_core(n, l, c);
    assert(topo.has_core(n, l, c));
    let llc = topo.nodes[n].llcs[l];
    assert(llc.sound(facts, l, n));
    let core = llc.cores[c];
    assert(core.sound(facts, c, l, llc.kernel_id, n));
    choose|u: usize| #[trigger]
        core.cpus.contains_key(u) && facts.core_type(u) == core.core_type
}

} // verus!
