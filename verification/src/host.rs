//! What a topology says about the CPUs of its host, by the files of sysfs.

use crate::builder;
use crate::builder::{Build, Facts};
use crate::cpumask::CpumaskView;
use crate::error::{ErrorView, TopologyError};
use crate::hierarchy::{Core, CoreType, Cpu, Gpu, GpuIndex, Llc, Node, NodeView};
use crate::laws;
use crate::order;
use crate::soundness;
use crate::sysfs;
use crate::sysfs::{CpuDir, Sysfs};
use crate::text;
use crate::topology;
use crate::topology::{Topology, TopologyView};
use crate::topology_map;
use vstd::prelude::*;

verus! {

/// Where a CPU of a topology is.
proof fn lemma_place(facts: Facts, topo: TopologyView, u: usize) -> (place: (usize, usize, usize))
    requires
        topo.sound(facts),
        topo.all_cpus.contains_key(u),
    ensures
        ({
            let (n, l, c) = place;
            &&& topo.has_cpu(n, l, c, u)
            &&& topo.has_core(n, l, c)
            &&& topo.has_llc(n, l)
            &&& topo.nodes[n].sound(facts, n)
            &&& topo.nodes[n].llcs[l].sound(facts, l, n)
            &&& topo.nodes[n].llcs[l].cores[c].sound(
                facts,
                c,
                l,
                topo.nodes[n].llcs[l].kernel_id,
                n,
            )
            &&& topo.all_llcs[l] == topo.nodes[n].llcs[l]
            &&& topo.all_cores[c] == topo.nodes[n].llcs[l].cores[c]
            &&& topo.all_cores[c].cpus[u] == topo.all_cpus[u]
            &&& topo.all_cpus[u] == facts.cpu(u, c, l, n)
        }),
{
    let (n, l, c) = choose|n: usize, l: usize, c: usize| topo.has_cpu(n, l, c, u);
    assert(topo.has_cpu(n, l, c, u));
    assert(topo.has_core(n, l, c));
    assert(topo.has_llc(n, l));
    let llc = topo.nodes[n].llcs[l];
    assert(llc.sound(facts, l, n));
    assert(llc.cores[c].sound(facts, c, l, llc.kernel_id, n));
    (n, l, c)
}

/// The number that a file holds, or 0.
pub open spec fn or_zero(read: Option<usize>) -> usize {
    match read {
        Some(number) => number,
        None => 0,
    }
}

/// A CPU carries the numbers in its files. A file that cannot be read counts as 0, but
/// for the base frequency, which is then the maximum frequency.
pub proof fn law_cpu_carries_its_files(sys: Sysfs, flattened: bool, topo: TopologyView, u: usize)
    requires
        topology::built(sys, flattened) == Ok::<_, ErrorView>(topo),
        topology::nodes_of(sys, topo.span, flattened).ctx.countable(),
        topo.all_cpus.contains_key(u),
    ensures
        sys.cpus@.contains_key(u),
        topo.all_cpus[u].id == u,
        topo.all_cpus[u].min_freq == or_zero(sys.cpus@[u].min_freq),
        topo.all_cpus[u].max_freq == or_zero(sys.cpus@[u].max_freq),
        sys.cpus@[u].base_freq matches Some(f) ==> topo.all_cpus[u].base_freq == f,
        sys.cpus@[u].base_freq is None ==> topo.all_cpus[u].base_freq == or_zero(
            sys.cpus@[u].max_freq,
        ),
        topo.all_cpus[u].trans_lat_ns == or_zero(sys.cpus@[u].trans_lat_ns),
        topo.all_cpus[u].l2_id == or_zero(sys.cpus@[u].l2_id),
        topo.all_cpus[u].l3_id == or_zero(sys.cpus@[u].l3_id),
{
    let facts = builder::facts_of(sys, topo.span, flattened);
    laws::law_topology_is_sound(sys, flattened, topo);
    let (n, l, c) = lemma_place(facts, topo, u);
    assert(topo.all_cores[c].cpus.contains_key(u));
}

/// A CPU carries the IDs of the core, the LLC and the node that it is in. Its node is one
/// whose directory lists it.
pub proof fn law_cpu_carries_its_place(sys: Sysfs, flattened: bool, topo: TopologyView, u: usize)
    requires
        topology::built(sys, flattened) == Ok::<_, ErrorView>(topo),
        topology::nodes_of(sys, topo.span, flattened).ctx.countable(),
        topo.all_cpus.contains_key(u),
    ensures
        topo.has_cpu(
            topo.all_cpus[u].node_id,
            topo.all_cpus[u].llc_id,
            topo.all_cpus[u].core_id,
            u,
        ),
        laws::lists_at(sys, flattened, topo.all_cpus[u].node_id, u),
        topo.nodes[topo.all_cpus[u].node_id].all_cpus.contains_key(u),
        topo.all_llcs.contains_key(topo.all_cpus[u].llc_id),
        topo.all_llcs[topo.all_cpus[u].llc_id].node_id == topo.all_cpus[u].node_id,
        topo.all_llcs[topo.all_cpus[u].llc_id].all_cpus.contains_key(u),
        topo.all_cores.contains_key(topo.all_cpus[u].core_id),
        topo.all_cores[topo.all_cpus[u].core_id].node_id == topo.all_cpus[u].node_id,
        topo.all_cores[topo.all_cpus[u].core_id].llc_id == topo.all_cpus[u].llc_id,
        topo.all_cores[topo.all_cpus[u].core_id].cpus.contains_key(u),
{
    let facts = builder::facts_of(sys, topo.span, flattened);
    laws::law_topology_is_sound(sys, flattened, topo);
    let (n, l, c) = lemma_place(facts, topo, u);
    soundness::lemma_cpu_is_spanned(topo.nodes[n], facts, n, l, c, u);
    laws::law_node_spans_its_listed_cpus(sys, flattened, topo, n, u);
    assert(topo.nodes[n].has_cpu(l, c, u));
    assert(topo.nodes[n].indices_hold());
    assert(topo.nodes[n].llcs.contains_key(l));
    assert(topo.nodes[n].llcs[l].has_cpu(c, u));
}

/// Two CPUs are in the same LLC exactly where they are in the same node and their L3
/// caches have the same ID. An unknown ID counts as 0.
pub proof fn law_llc_is_the_l3_cache(sys: Sysfs, topo: TopologyView, u: usize, v: usize)
    requires
        topology::built(sys, false) == Ok::<_, ErrorView>(topo),
        topology::nodes_of(sys, topo.span, false).ctx.countable(),
        topo.all_cpus.contains_key(u),
        topo.all_cpus.contains_key(v),
    ensures
        topo.all_cpus[u].llc_id == topo.all_cpus[v].llc_id <==> {
            &&& topo.all_cpus[u].node_id == topo.all_cpus[v].node_id
            &&& or_zero(sys.cpus@[u].l3_id) == or_zero(sys.cpus@[v].l3_id)
        },
        topo.all_llcs[topo.all_cpus[u].llc_id].kernel_id == or_zero(sys.cpus@[u].l3_id),
{
    let facts = builder::facts_of(sys, topo.span, false);
    laws::law_topology_is_sound(sys, false, topo);
    law_cpu_carries_its_files(sys, false, topo, u);
    law_cpu_carries_its_files(sys, false, topo, v);
    let (n, l, c) = lemma_place(facts, topo, u);
    let (m, k, d) = lemma_place(facts, topo, v);
    assert(topo.all_cores[c].cpus.contains_key(u));
    assert(topo.all_cores[d].cpus.contains_key(v));
}

/// The CPUs of an LLC have its kernel ID for that of their L3 cache.
pub proof fn law_llc_has_the_id_of_its_cache(
    sys: Sysfs,
    topo: TopologyView,
    l: usize,
    u: usize,
)
    requires
        topology::built(sys, false) == Ok::<_, ErrorView>(topo),
        topology::nodes_of(sys, topo.span, false).ctx.countable(),
        topo.all_llcs.contains_key(l),
        topo.all_llcs[l].all_cpus.contains_key(u),
    ensures
        topo.all_cpus.contains_key(u),
        topo.all_cpus[u].llc_id == l,
        topo.all_llcs[l].kernel_id == or_zero(sys.cpus@[u].l3_id),
{
    let facts = builder::facts_of(sys, topo.span, false);
    laws::law_topology_is_sound(sys, false, topo);
    let n = choose|n: usize| topo.has_llc(n, l);
    assert(topo.has_llc(n, l));
    assert(topo.nodes[n].indices_hold());
    let llc = topo.nodes[n].llcs[l];
    assert(llc.indices_hold());
    let c = choose|c: usize| llc.has_cpu(c, u);
    assert(topo.has_cpu(n, l, c, u));
    let (m, k, d) = lemma_place(facts, topo, u);
    assert(topo.has_cpu(m, k, d, u));
    law_llc_is_the_l3_cache(sys, topo, u, u);
}

/// Two CPUs are in the same core exactly where they are in the same node and their files
/// name the same core.
pub proof fn law_core_is_the_named_one(
    sys: Sysfs,
    flattened: bool,
    topo: TopologyView,
    u: usize,
    v: usize,
)
    requires
        topology::built(sys, flattened) == Ok::<_, ErrorView>(topo),
        topology::nodes_of(sys, topo.span, flattened).ctx.countable(),
        topo.all_cpus.contains_key(u),
        topo.all_cpus.contains_key(v),
    ensures
        topo.all_cpus[u].core_id == topo.all_cpus[v].core_id <==> {
            &&& topo.all_cpus[u].node_id == topo.all_cpus[v].node_id
            &&& sys.cpus@[u].core_id == sys.cpus@[v].core_id
        },
        sys.cpus@[u].core_id == Some(topo.all_cores[topo.all_cpus[u].core_id].kernel_id),
{
    let facts = builder::facts_of(sys, topo.span, flattened);
    laws::law_topology_is_sound(sys, flattened, topo);
    law_cpu_carries_its_files(sys, flattened, topo, u);
    law_cpu_carries_its_files(sys, flattened, topo, v);
    let (n, l, c) = lemma_place(facts, topo, u);
    let (m, k, d) = lemma_place(facts, topo, v);
    assert(topo.all_cores[c].cpus.contains_key(u));
    assert(topo.all_cores[d].cpus.contains_key(v));
}

/// Where frequencies are known, a CPU is a little one exactly where its maximum frequency
/// is not the highest and its base frequency is below the average. It is a big one with
/// turbo exactly where its maximum frequency is the highest.
pub proof fn law_cpu_types(sys: Sysfs, flattened: bool, topo: TopologyView, u: usize)
    requires
        topology::built(sys, flattened) == Ok::<_, ErrorView>(topo),
        topology::nodes_of(sys, topo.span, flattened).ctx.countable(),
        topo.all_cpus.contains_key(u),
    ensures
        sysfs::average_freq(sys.cpu_dirs@) matches Some((average, highest)) ==> {
            let cpu = topo.all_cpus[u];
            &&& cpu.core_type == CoreType::Little <==> cpu.max_freq != highest && cpu.base_freq
                < average
            &&& cpu.core_type == (CoreType::Big { turbo: true }) <==> cpu.max_freq == highest
            &&& cpu.core_type == (CoreType::Big { turbo: false }) <==> cpu.max_freq != highest
                && cpu.base_freq >= average
        },
        sysfs::average_freq(sys.cpu_dirs@) is None ==> topo.all_cpus[u].core_type == (
        CoreType::Big { turbo: false }),
{
    let facts = builder::facts_of(sys, topo.span, flattened);
    laws::law_topology_is_sound(sys, flattened, topo);
    let (n, l, c) = lemma_place(facts, topo, u);
}

/// Where two CPUs have the same frequencies, they have the same type.
pub proof fn law_same_frequencies_same_type(
    sys: Sysfs,
    flattened: bool,
    topo: TopologyView,
    u: usize,
    v: usize,
)
    requires
        topology::built(sys, flattened) == Ok::<_, ErrorView>(topo),
        topology::nodes_of(sys, topo.span, flattened).ctx.countable(),
        topo.all_cpus.contains_key(u),
        topo.all_cpus.contains_key(v),
        sys.cpus@[u].max_freq == sys.cpus@[v].max_freq,
        sys.cpus@[u].base_freq == sys.cpus@[v].base_freq,
    ensures
        topo.all_cpus[u].core_type == topo.all_cpus[v].core_type,
{
    law_cpu_carries_its_files(sys, flattened, topo, u);
    law_cpu_carries_its_files(sys, flattened, topo, v);
    law_cpu_types(sys, flattened, topo, u);
    law_cpu_types(sys, flattened, topo, v);
    assert(topo.all_cpus[u].core_type == topo.all_cpus[v].core_type);
}

/// Whether the GPU at `j` of the list is the last one with the index `i`.
pub open spec fn last_gpu(list: Seq<Gpu>, j: int, i: GpuIndex) -> bool {
    &&& 0 <= j < list.len()
    &&& list[j].index == i
    &&& forall|k: int| j < k < list.len() ==> (#[trigger] list[k]).index != i
}

/// The GPUs of a list by their index are those in the list, the last one of each index.
proof fn lemma_gpus(list: Seq<Gpu>, i: GpuIndex)
    ensures
        builder::gpus_by_index(list).contains_key(i) <==> exists|j: int|
            0 <= j < list.len() && (#[trigger] list[j]).index == i,
        forall|j: int| #[trigger]
            last_gpu(list, j, i) ==> builder::gpus_by_index(list).contains_key(i)
                && builder::gpus_by_index(list)[i] == list[j],
    decreases list.len(),
{
    if list.len() > 0 {
        let head = list.drop_last();
        lemma_gpus(head, i);
        if builder::gpus_by_index(head).contains_key(i) {
            let j = choose|j: int| 0 <= j < head.len() && (#[trigger] head[j]).index == i;
            assert(list[j].index == i);
        }
        if list.last().index == i {
            assert(list[list.len() - 1].index == i);
        }
        if exists|j: int| 0 <= j < list.len() && (#[trigger] list[j]).index == i {
            let j = choose|j: int| 0 <= j < list.len() && (#[trigger] list[j]).index == i;
            if j < head.len() {
                assert(head[j].index == i);
            }
        }
        assert forall|j: int| #[trigger] last_gpu(list, j, i) implies builder::gpus_by_index(
            list,
        ).contains_key(i) && builder::gpus_by_index(list)[i] == list[j] by {
            if j < list.len() - 1 {
                assert(list[list.len() - 1].index != i);
                assert forall|k: int| j < k < head.len() implies (#[trigger] head[k]).index != i by {
                    assert(list[k].index != i);
                }
                assert(head[j] == list[j]);
                assert(last_gpu(head, j, i));
            }
        }
    }
}

/// A node has a GPU under an index exactly where the GPUs that were found at the node have
/// one with that index. It is then the last such one.
pub proof fn law_node_has_its_gpus(
    sys: Sysfs,
    flattened: bool,
    topo: TopologyView,
    n: usize,
    i: GpuIndex,
)
    requires
        topology::built(sys, flattened) == Ok::<_, ErrorView>(topo),
        topology::nodes_of(sys, topo.span, flattened).ctx.countable(),
        topo.nodes.contains_key(n),
    ensures
        topo.nodes[n].gpus.contains_key(i) <==> sys.gpus@.contains_key(n) && exists|j: int|
            0 <= j < sys.gpus@[n]@.len() && (#[trigger] sys.gpus@[n]@[j]).index == i,
        sys.gpus@.contains_key(n) ==> forall|j: int| #[trigger]
            last_gpu(sys.gpus@[n]@, j, i) ==> topo.nodes[n].gpus[i] == sys.gpus@[n]@[j],
{
    laws::law_gpus_are_at_their_node(sys, flattened, topo, n);
    if sys.gpus@.contains_key(n) {
        lemma_gpus(sys.gpus@[n]@, i);
    }
}

/// The GPU that a topology has under an index is that of the last of its nodes which has
/// one.
pub proof fn law_gpu_of_the_last_node(topo: TopologyView, n: usize, i: GpuIndex)
    requires
        topo.nodes.dom().finite(),
        topo.nodes.contains_key(n),
        topo.nodes[n].gpus.contains_key(i),
        forall|m: usize| #[trigger]
            topo.nodes.contains_key(m) && m > n ==> !topo.nodes[m].gpus.contains_key(i),
    ensures
        topology::gather(
            order::sorted(topo.nodes.dom()),
            |m: usize| topo.nodes[m].gpus,
        ).contains_key(i),
        topology::gather(order::sorted(topo.nodes.dom()), |m: usize| topo.nodes[m].gpus)[i]
            == topo.nodes[n].gpus[i],
{
    let keys = order::sorted(topo.nodes.dom());
    let part = |m: usize| topo.nodes[m].gpus;
    order::lemma_sorted(topo.nodes.dom());
    assert(keys.contains(n));
    let p = choose|p: int| 0 <= p < keys.len() && keys[p] == n;
    assert forall|q: int| p < q < keys.len() implies !part(#[trigger] keys[q]).contains_key(i) by {
        assert(keys.contains(keys[q]));
        assert(topo.nodes.contains_key(keys[q]));
    }
    assert(part(keys[p]).contains_key(i));
    lemma_gather_last(keys, part, p, i);
}

proof fn lemma_gather_last(
    keys: Seq<usize>,
    part: spec_fn(usize) -> Map<GpuIndex, Gpu>,
    p: int,
    i: GpuIndex,
)
    requires
        0 <= p < keys.len(),
        part(keys[p]).contains_key(i),
        forall|q: int| p < q < keys.len() ==> !part(#[trigger] keys[q]).contains_key(i),
    ensures
        topology::gather(keys, part).contains_key(i),
        topology::gather(keys, part)[i] == part(keys[p])[i],
    decreases keys.len(),
{
    if p < keys.len() - 1 {
        let head = keys.drop_last();
        assert(!part(keys[keys.len() - 1]).contains_key(i));
        assert(head[p] == keys[p]);
        assert forall|q: int| p < q < head.len() implies !part(#[trigger] head[q]).contains_key(
            i,
        ) by {
            assert(!part(keys[q]).contains_key(i));
        }
        lemma_gather_last(head, part, p, i);
    }
}

/// The base frequency of a CPU by its files: its maximum frequency where it is not known,
/// and 0 where neither is.
pub open spec fn base_of(dir: CpuDir) -> int {
    match (dir.base_freq, dir.max_freq) {
        (Some(base), _) => base as int,
        (None, Some(max)) => max as int,
        (None, None) => 0,
    }
}

/// The base frequencies of the CPUs, in the order of their directories.
pub open spec fn bases_of(dirs: Seq<CpuDir>) -> Seq<int> {
    dirs.map_values(|dir: CpuDir| base_of(dir))
}

/// The sum of the base frequencies.
pub open spec fn total_of(dirs: Seq<CpuDir>) -> int {
    bases_of(dirs).fold_left(0, |sum: int, base: int| sum + base)
}

/// How many of the base frequencies are known.
pub open spec fn known_of(dirs: Seq<CpuDir>) -> int {
    bases_of(dirs).filter(|base: int| base > 0).len() as int
}

proof fn lemma_total(dirs: Seq<CpuDir>)
    ensures
        sysfs::base_sum(dirs) == total_of(dirs),
        sysfs::base_count(dirs) == known_of(dirs),
        total_of(dirs) > 0 ==> known_of(dirs) > 0,
        0 <= known_of(dirs) <= total_of(dirs),
    decreases dirs.len(),
{
    reveal(Seq::filter);
    let bases = bases_of(dirs);
    if dirs.len() > 0 {
        let head = dirs.drop_last();
        lemma_total(head);
        assert(bases.drop_last() == bases_of(head));
        assert(bases.last() == base_of(dirs.last()));
    }
}

/// The average base frequency is the sum of the known ones by their number, rounded down.
/// It is unknown where no base frequency is known.
pub proof fn law_average(dirs: Seq<CpuDir>)
    ensures
        sysfs::average_freq(dirs) is None <==> total_of(dirs) == 0,
        total_of(dirs) <= usize::MAX ==> (sysfs::average_freq(dirs) matches Some((average, _))
            ==> average * known_of(dirs) <= total_of(dirs) < (average + 1) * known_of(dirs)),
{
    lemma_total(dirs);
    if 0 < total_of(dirs) <= usize::MAX {
        let total = total_of(dirs);
        let known = known_of(dirs);
        let average = total / known;
        vstd::arithmetic::div_mod::lemma_fundamental_div_mod(total, known);
        vstd::arithmetic::div_mod::lemma_mod_bound(total, known);
        assert(0 <= average <= total) by (nonlinear_arith)
            requires
                total == known * average + total % known,
                0 <= total % known < known,
                0 < known,
                0 < total,
        ;
        assert(average * known <= total < (average + 1) * known) by (nonlinear_arith)
            requires
                total == known * average + total % known,
                0 <= total % known < known,
        ;
    }
}

/// The sums over two lists of CPUs add up.
pub proof fn law_total_of_parts(a: Seq<CpuDir>, b: Seq<CpuDir>)
    ensures
        total_of(a + b) == total_of(a) + total_of(b),
        known_of(a + b) == known_of(a) + known_of(b),
    decreases b.len(),
{
    reveal(Seq::filter);
    let bases = bases_of(a + b);
    if b.len() == 0 {
        assert(a + b == a);
    } else {
        let head = b.drop_last();
        law_total_of_parts(a, head);
        assert((a + b).drop_last() == a + head);
        assert(bases.drop_last() == bases_of(a + head));
        assert(bases.last() == base_of(b.last()));
        assert(bases_of(b).drop_last() == bases_of(head));
        assert(bases_of(b).last() == base_of(b.last()));
    }
}

/// The highest maximum frequency is the greatest among the CPUs whose base frequency is
/// known.
pub proof fn law_highest(dirs: Seq<CpuDir>)
    ensures
        sysfs::average_freq(dirs) matches Some((_, highest)) ==> {
            &&& forall|i: int|
                0 <= i < dirs.len() && base_of(#[trigger] dirs[i]) > 0 ==> or_zero(dirs[i].max_freq)
                    <= highest
            &&& exists|i: int|
                0 <= i < dirs.len() && base_of(#[trigger] dirs[i]) > 0 && or_zero(dirs[i].max_freq)
                    == highest
        },
{
    laws::law_frequencies(dirs);
    match sysfs::average_freq(dirs) {
        Some((_, highest)) => {
            assert forall|i: int|
                0 <= i < dirs.len() && base_of(#[trigger] dirs[i]) > 0 implies or_zero(
                dirs[i].max_freq,
            ) <= highest by {
                assert(dirs[i].base() > 0);
            }
            let i = choose|i: int|
                0 <= i < dirs.len() && (#[trigger] dirs[i]).base() > 0 && dirs[i].top_freq()
                    == highest;
            assert(base_of(dirs[i]) > 0 && or_zero(dirs[i].max_freq) == highest);
        },
        None => {},
    }
}

/// Whether `u` and `v` are the two lowest CPUs of the core `c`.
pub open spec fn lowest_two(topo: TopologyView, c: usize, u: usize, v: usize) -> bool {
    let core = topo.all_cores[c];
    &&& topo.all_cores.contains_key(c)
    &&& core.cpus.contains_key(u)
    &&& core.cpus.contains_key(v)
    &&& u < v
    &&& forall|w: usize| #[trigger] core.cpus.contains_key(w) ==> w == u || w >= v
}

/// The two lowest CPUs of a core are what its pair is.
proof fn lemma_lowest_two(topo: TopologyView, c: usize, u: usize, v: usize)
    requires
        topo.all_cores.contains_key(c),
        topo.all_cores[c].cpus.dom().finite(),
    ensures
        lowest_two(topo, c, u, v) <==> topo.all_cores[c].pair() == Some((u, v)),
{
    let dom = topo.all_cores[c].cpus.dom();
    let ids = order::sorted(dom);
    order::lemma_sorted(dom);
    if lowest_two(topo, c, u, v) {
        assert(ids.contains(u) && ids.contains(v));
        let i = choose|i: int| 0 <= i < ids.len() && ids[i] == u;
        let j = choose|j: int| 0 <= j < ids.len() && ids[j] == v;
        assert(ids.contains(ids[0]) && topo.all_cores[c].cpus.contains_key(ids[0]));
        assert(i == 0);
        assert(ids.contains(ids[1]) && topo.all_cores[c].cpus.contains_key(ids[1]));
        assert(j == 1);
    }
    if topo.all_cores[c].pair() == Some((u, v)) {
        assert(ids.contains(ids[0]) && ids.contains(ids[1]));
        assert forall|w: usize| #[trigger] topo.all_cores[c].cpus.contains_key(w) implies w == u
            || w >= v by {
            assert(ids.contains(w));
            let k = choose|k: int| 0 <= k < ids.len() && ids[k] == w;
            if k > 1 {
                assert(ids[1] < ids[k]);
            }
        }
    }
}

/// Whether `u` is one of the two lowest CPUs of the core `c`, and `v` is the other.
pub open spec fn siblings_in(topo: TopologyView, c: usize, u: usize, v: usize) -> bool {
    lowest_two(topo, c, u, v) || lowest_two(topo, c, v, u)
}

/// The sibling of a CPU is the other one of the two lowest CPUs of its core, and of the last
/// such core where there are several. No other CPU has a sibling.
pub proof fn law_siblings_are_the_lowest_two(topo: TopologyView, sibling: Seq<i32>, u: usize)
    requires
        forall|c: usize| #[trigger]
            topo.all_cores.contains_key(c) ==> topo.all_cores[c].cpus.dom().finite(),
        topo.maps_siblings(sibling),
        u < sibling.len(),
    ensures
        forall|c: usize, v: usize| #[trigger]
            siblings_in(topo, c, u, v) && (forall|d: usize, w: usize| #[trigger]
                siblings_in(topo, d, u, w) ==> d <= c) ==> sibling[u as int] == v,
        (forall|c: usize, v: usize| !#[trigger] siblings_in(topo, c, u, v)) ==> sibling[u as int]
            == -1,
{
    assert forall|c: usize, v: usize| #[trigger]
        siblings_in(topo, c, u, v) && (forall|d: usize, w: usize| #[trigger]
            siblings_in(topo, d, u, w) ==> d <= c) implies sibling[u as int] == v by {
        lemma_lowest_two(topo, c, u, v);
        lemma_lowest_two(topo, c, v, u);
        assert(topo.paired_in(c, u));
        assert(topo.all_cores[c].partner(u) == v);
        assert forall|d: usize| #[trigger] topo.paired_in(d, u) implies d <= c by {
            let (a, b) = topo.all_cores[d].pair().unwrap();
            lemma_lowest_two(topo, d, a, b);
            if u == a {
                assert(siblings_in(topo, d, u, b));
            } else {
                assert(siblings_in(topo, d, u, a));
            }
        }
        assert(topo.last_paired_in(c, u));
    }
    if forall|c: usize, v: usize| !#[trigger] siblings_in(topo, c, u, v) {
        assert forall|c: usize| !topo.paired_in(c, u) by {
            if topo.paired_in(c, u) {
                let (a, b) = topo.all_cores[c].pair().unwrap();
                lemma_lowest_two(topo, c, a, b);
                if u == a {
                    assert(siblings_in(topo, c, u, b));
                } else {
                    assert(siblings_in(topo, c, u, a));
                }
            }
        }
    }
}

/// Siblings can be asked for wherever the CPUs of all cores are below the number of possible
/// ones and can be written as `i32`.
pub proof fn law_siblings_below(topo: TopologyView, nr_cpus: nat)
    requires
        forall|c: usize| #[trigger]
            topo.all_cores.contains_key(c) ==> topo.all_cores[c].cpus.dom().finite(),
        forall|c: usize, u: usize|
            topo.all_cores.contains_key(c) && #[trigger] topo.all_cores[c].cpus.contains_key(u)
                ==> u < nr_cpus && u <= i32::MAX,
    ensures
        topo.siblings_below(nr_cpus),
{
    assert forall|c: usize| #[trigger] topo.all_cores.contains_key(c) implies (
    topo.all_cores[c].pair() matches Some((_, b)) ==> b < nr_cpus && b <= i32::MAX) by {
        if topo.all_cores[c].pair() is Some {
            let (a, b) = topo.all_cores[c].pair().unwrap();
            lemma_lowest_two(topo, c, a, b);
            assert(topo.all_cores[c].cpus.contains_key(b));
        }
    }
}

/// The rows of a topology map are those of the cores from the lowest ID to the highest,
/// and each row lists the CPUs that its core spans from the lowest to the highest.
pub proof fn law_rows_are_the_cores(topo: TopologyView, cores: Seq<usize>)
    requires
        forall|c: usize| #[trigger]
            topo.all_cores.contains_key(c) ==> topo.all_cores[c].span.cpus.finite(),
        forall|i: int, j: int| 0 <= i < j < cores.len() ==> cores[i] < cores[j],
        forall|c: usize| #[trigger] cores.contains(c) <==> topo.all_cores.contains_key(c),
    ensures
        topo.rows().len() == cores.len(),
        forall|i: int, u: usize|
            0 <= i < cores.len() ==> (#[trigger] topo.rows()[i].contains(u)
                <==> topo.all_cores[cores[i]].span.cpus.contains(u)),
        forall|i: int, a: int, b: int|
            0 <= i < cores.len() && 0 <= a < b < topo.rows()[i].len()
                ==> #[trigger] topo.rows()[i][a] < #[trigger] topo.rows()[i][b],
{
    let dom = topo.all_cores.dom();
    assert(order::ascending(cores));
    assert(cores.to_set() =~= dom) by {
        assert forall|c: usize| cores.to_set().contains(c) == dom.contains(c) by {
            assert(cores.contains(c) <==> topo.all_cores.contains_key(c));
        }
    }
    order::lemma_sorted_is(cores);
    let rows = topo.rows();
    assert forall|i: int, u: usize| 0 <= i < cores.len() implies (#[trigger] rows[i].contains(u)
        <==> topo.all_cores[cores[i]].span.cpus.contains(u)) by {
        let c = cores[i];
        assert(cores.contains(c));
        order::lemma_sorted(topo.all_cores[c].span.cpus);
        assert(rows[i] == order::sorted(topo.all_cores[c].span.cpus));
    }
    assert forall|i: int, a: int, b: int|
        0 <= i < cores.len() && 0 <= a < b < rows[i].len() implies #[trigger] rows[i][a]
        < #[trigger] rows[i][b] by {
        let c = cores[i];
        assert(cores.contains(c));
        order::lemma_sorted(topo.all_cores[c].span.cpus);
        assert(rows[i] == order::sorted(topo.all_cores[c].span.cpus));
    }
}

/// A mapping gives each CPU in a row the last row with it. A CPU in no row has 0, and the
/// mapping ends with the highest CPU in a row.
pub proof fn law_mapping(rows: Seq<Seq<usize>>, ids: Seq<usize>)
    requires
        topology_map::maps_cpus(ids, rows),
    ensures
        forall|i: int, u: usize|
            0 <= i < rows.len() && #[trigger] rows[i].contains(u) ==> u < ids.len(),
        forall|i: int, u: usize|
            0 <= i < rows.len() && #[trigger] rows[i].contains(u) && (forall|j: int|
                i < j < rows.len() ==> !(#[trigger] rows[j]).contains(u)) ==> ids[u as int] == i,
        forall|u: usize|
            #![trigger ids[u as int]]
            u < ids.len() && (forall|i: int|
                0 <= i < rows.len() ==> !(#[trigger] rows[i]).contains(u)) ==> ids[u as int] == 0,
        ids.len() > 0 ==> exists|i: int|
            0 <= i < rows.len() && (#[trigger] rows[i]).contains((ids.len() - 1) as usize),
{
    assert forall|i: int, u: usize|
        0 <= i < rows.len() && #[trigger] rows[i].contains(u) implies u < ids.len() by {
        assert(topology_map::some_row_with(rows, u));
    }
    assert forall|i: int, u: usize|
        0 <= i < rows.len() && #[trigger] rows[i].contains(u) && (forall|j: int|
            i < j < rows.len() ==> !(#[trigger] rows[j]).contains(u)) implies ids[u as int]
        == i by {
        assert(topology_map::last_row_with(rows, i, u));
    }
    assert forall|u: usize|
        #![trigger ids[u as int]]
        u < ids.len() && (forall|i: int|
            0 <= i < rows.len() ==> !(#[trigger] rows[i]).contains(u)) implies ids[u as int]
        == 0 by {
        assert(!topology_map::some_row_with(rows, u));
    }
    if ids.len() > 0 {
        assert(topology_map::some_row_with(rows, (ids.len() - 1) as usize));
    }
}

/// A set is listed in ascending order, each item once.
pub proof fn law_sorted(set: Set<usize>)
    requires
        set.finite(),
    ensures
        forall|i: int, j: int|
            0 <= i < j < order::sorted(set).len() ==> order::sorted(set)[i] < order::sorted(set)[j],
        forall|u: usize| #[trigger] order::sorted(set).contains(u) <==> set.contains(u),
        order::sorted(set).len() == set.len(),
{
    order::lemma_sorted(set);
    let s = order::sorted(set);
    assert(s.no_duplicates());
    s.unique_seq_to_set();
}

/// A new mask has no CPU. A CPU that is put into a mask is in it, and so are those that
/// were.
pub proof fn law_masks(nr_cpu_ids: nat, mask: CpumaskView, u: usize, v: usize)
    ensures
        CpumaskView::none(nr_cpu_ids).nr_cpu_ids == nr_cpu_ids,
        !CpumaskView::none(nr_cpu_ids).cpus.contains(u),
        mask.with(u).nr_cpu_ids == mask.nr_cpu_ids,
        mask.with(u).cpus.contains(v) <==> v == u || mask.cpus.contains(v),
{
}

/// All masks in a topology have room for the possible CPUs of the host, and the topology
/// spans the online CPUs, which it counts.
pub proof fn law_span(sys: Sysfs, flattened: bool, topo: TopologyView)
    requires
        topology::built(sys, flattened) == Ok::<_, ErrorView>(topo),
        topology::nodes_of(sys, topo.span, flattened).ctx.countable(),
    ensures
        sys.online is Some,
        sysfs::online_cpus(Some(sys.online.unwrap()@), sys.nr_cpu_ids) == Ok::<_, ErrorView>(
            topo.span,
        ),
        topo.span.nr_cpu_ids == sys.nr_cpu_ids,
        topo.nr_cpus_online == topo.span.cpus.len(),
        topo.span.cpus.finite(),
        forall|n: usize| #[trigger]
            topo.nodes.contains_key(n) ==> topo.nodes[n].span.nr_cpu_ids == sys.nr_cpu_ids,
        forall|l: usize| #[trigger]
            topo.all_llcs.contains_key(l) ==> topo.all_llcs[l].span.nr_cpu_ids == sys.nr_cpu_ids,
        forall|c: usize| #[trigger]
            topo.all_cores.contains_key(c) ==> topo.all_cores[c].span.nr_cpu_ids == sys.nr_cpu_ids,
{
    laws::law_topology_is_sound(sys, flattened, topo);
    let groups = text::pieces(sys.online.unwrap()@, ',');
    laws::law_online_list(groups, sys.nr_cpu_ids, topo.span.cpus);
    laws::lemma_below(topo.span.cpus, sys.nr_cpu_ids);
}

/// A topology of the host can be asked for wherever the ends of the online ranges are below
/// the greatest number and the sum of the base frequencies is within the range of numbers.
pub proof fn law_in_range(sys: Sysfs, flattened: bool)
    requires
        total_of(sys.cpu_dirs@) <= usize::MAX,
        sys.online matches Some(list) ==> forall|k: int|
            0 <= k < text::pieces(list@, ',').len() ==> (text::cpu_group(
                #[trigger] text::pieces(list@, ',')[k],
            ) matches Some((_, max)) ==> max < usize::MAX),
    ensures
        sys.in_range(flattened),
{
    lemma_total(sys.cpu_dirs@);
}

/// A CPU can be put into any node whose masks all have room for the same number of CPUs.
pub proof fn law_sized(node: NodeView, nr_cpu_ids: nat)
    requires
        node.span.nr_cpu_ids == nr_cpu_ids,
        forall|l: usize| #[trigger]
            node.llcs.contains_key(l) ==> node.llcs[l].span.nr_cpu_ids == nr_cpu_ids,
        forall|l: usize, c: usize| #[trigger]
            node.has_core(l, c) ==> node.llcs[l].cores[c].span.nr_cpu_ids == nr_cpu_ids,
    ensures
        node.sized(nr_cpu_ids),
{
    assert forall|l: usize| #[trigger] node.llcs.contains_key(l) implies node.llcs[l].sized(
        nr_cpu_ids,
    ) by {
        assert forall|c: usize| #[trigger] node.llcs[l].cores.contains_key(
            c,
        ) implies node.llcs[l].cores[c].sized(nr_cpu_ids) by {
            assert(node.has_core(l, c));
        }
    }
}

/// The view of a core, an LLC, a node and a topology has their fields as they are, and the
/// objects that they share in place of the pointers to them.
pub proof fn law_views(core: Core, llc: Llc, node: Node, topo: Topology, id: usize)
    ensures
        core@.id == core.id && core@.kernel_id == core.kernel_id && core@.span == core.span@
            && core@.core_type == core.core_type && core@.llc_id == core.llc_id && core@.node_id
            == core.node_id,
        core@.cpus.contains_key(id) <==> core.cpus@.contains_key(id),
        core.cpus@.contains_key(id) ==> core@.cpus[id] == *core.cpus@[id],
        llc@.id == llc.id && llc@.kernel_id == llc.kernel_id && llc@.span == llc.span@
            && llc@.node_id == llc.node_id,
        llc@.cores.contains_key(id) <==> llc.cores@.contains_key(id),
        llc.cores@.contains_key(id) ==> llc@.cores[id] == (*llc.cores@[id])@,
        llc@.all_cpus.contains_key(id) <==> llc.all_cpus@.contains_key(id),
        llc.all_cpus@.contains_key(id) ==> llc@.all_cpus[id] == *llc.all_cpus@[id],
        node@.id == node.id && node@.span == node.span@ && node@.gpus == node.gpus@,
        node@.llcs.contains_key(id) <==> node.llcs@.contains_key(id),
        node.llcs@.contains_key(id) ==> node@.llcs[id] == (*node.llcs@[id])@,
        node@.all_cores.contains_key(id) <==> node.all_cores@.contains_key(id),
        node.all_cores@.contains_key(id) ==> node@.all_cores[id] == (*node.all_cores@[id])@,
        node@.all_cpus.contains_key(id) <==> node.all_cpus@.contains_key(id),
        node.all_cpus@.contains_key(id) ==> node@.all_cpus[id] == *node.all_cpus@[id],
        topo@.span == topo.span@ && topo@.nr_cpus_online == topo.nr_cpus_online,
        topo@.nodes.contains_key(id) <==> topo.nodes@.contains_key(id),
        topo.nodes@.contains_key(id) ==> topo@.nodes[id] == topo.nodes@[id]@,
        topo@.all_llcs.contains_key(id) <==> topo.all_llcs@.contains_key(id),
        topo.all_llcs@.contains_key(id) ==> topo@.all_llcs[id] == (*topo.all_llcs@[id])@,
        topo@.all_cores.contains_key(id) <==> topo.all_cores@.contains_key(id),
        topo.all_cores@.contains_key(id) ==> topo@.all_cores[id] == (*topo.all_cores@[id])@,
        topo@.all_cpus.contains_key(id) <==> topo.all_cpus@.contains_key(id),
        topo.all_cpus@.contains_key(id) ==> topo@.all_cpus[id] == *topo.all_cpus@[id],
{
}

/// The file of a CPU with the kernel ID of its LLC, or 0: all CPUs of a node share one LLC
/// where LLCs are flattened.
pub open spec fn l3_of(facts: Facts, u: usize) -> usize {
    if facts.flatten_llc || !facts.attrs.contains_key(u) {
        0
    } else {
        or_zero(facts.attrs[u].l3_id)
    }
}

/// An offline CPU leaves a node as it is, and so does an online CPU whose core is not known,
/// which is an error. Any other CPU that the node spans already is an error as well.
pub proof fn law_refused_cpu(build: Build, facts: Facts, u: usize)
    ensures
        !facts.online.cpus.contains(u) ==> build.refusal(facts, u) is None && build.inserted(
            facts,
            u,
        ) == build,
        facts.online.cpus.contains(u) && (!facts.attrs.contains_key(u)
            || facts.attrs[u].core_id is None) ==> build.refusal(facts, u) == Some(
            ErrorView::CoreIdUnreadable { cpu: u },
        ) && build.inserted(facts, u) == build,
        facts.online.cpus.contains(u) && facts.attrs.contains_key(u)
            && facts.attrs[u].core_id is Some ==> (if build.node.span.cpus.contains(u) {
            build.refusal(facts, u) == Some(
                ErrorView::NodeHasCpu { node: build.node.id, cpu: u },
            )
        } else {
            build.refusal(facts, u) is None
        }),
{
}

/// An online CPU is put into the core and the LLC that its files name for its node. They are
/// new, with the next ID, where the node and the kernel ID have no ID yet. All else stays.
pub proof fn law_inserted_cpu(build: Build, facts: Facts, u: usize, kernel_id: usize)
    requires
        build.ctx.cores.len() <= usize::MAX,
        build.ctx.llcs.len() <= usize::MAX,
        facts.online.cpus.contains(u),
        facts.attrs.contains_key(u),
        facts.attrs[u].core_id == Some(kernel_id),
    ensures
        ({
            let n = build.node.id;
            let after = build.inserted(facts, u);
            let llc_key = (n, l3_of(facts, u));
            let core_key = (n, kernel_id);
            let l = after.ctx.llcs[llc_key];
            let c = after.ctx.cores[core_key];
            &&& after.ctx.llcs == build.ctx.llcs.insert(llc_key, l)
            &&& after.ctx.cores == build.ctx.cores.insert(core_key, c)
            &&& if build.ctx.llcs.contains_key(llc_key) {
                l == build.ctx.llcs[llc_key]
            } else {
                l == build.ctx.llcs.len()
            }
            &&& if build.ctx.cores.contains_key(core_key) {
                c == build.ctx.cores[core_key]
            } else {
                c == build.ctx.cores.len()
            }
            &&& after.node.has_cpu(l, c, u)
            &&& after.node.llcs == build.node.llcs.insert(l, after.node.llcs[l])
            &&& after.node.id == n
            &&& after.node.gpus == build.node.gpus
            &&& after.node.all_cores == build.node.all_cores
            &&& after.node.all_cpus == build.node.all_cpus
            &&& after.node.span.nr_cpu_ids == build.node.span.nr_cpu_ids
            &&& after.node.span.cpus == build.node.span.cpus.insert(u)
        }),
{
    let after = build.inserted(facts, u);
    let n = build.node.id;
    let l = builder::id_for(build.ctx.llcs, (n, l3_of(facts, u)));
    let c = builder::id_for(build.ctx.cores, (n, kernel_id));
    assert(after.ctx.llcs[(n, l3_of(facts, u))] == l);
    assert(after.ctx.cores[(n, kernel_id)] == c);
    assert(after.node.llcs =~= build.node.llcs.insert(l, after.node.llcs[l]));
    assert(after.node.span.cpus =~= build.node.span.cpus.insert(u));
}

/// The LLC and the core that a CPU is put into have what they had, and the CPU. The spans
/// have it, too, unless the node had it before.
pub proof fn law_inserted_cpu_joins(build: Build, facts: Facts, u: usize, kernel_id: usize)
    requires
        build.ctx.cores.len() <= usize::MAX,
        build.ctx.llcs.len() <= usize::MAX,
        facts.online.cpus.contains(u),
        facts.attrs.contains_key(u),
        facts.attrs[u].core_id == Some(kernel_id),
    ensures
        ({
            let n = build.node.id;
            let after = build.inserted(facts, u);
            let l = after.ctx.llcs[(n, l3_of(facts, u))];
            let c = after.ctx.cores[(n, kernel_id)];
            let llc = after.node.llcs[l];
            let core = llc.cores[c];
            let new = !build.node.span.cpus.contains(u);
            &&& build.node.llcs.contains_key(l) ==> {
                let old_llc = build.node.llcs[l];
                &&& llc.id == old_llc.id && llc.kernel_id == old_llc.kernel_id && llc.node_id
                    == old_llc.node_id
                &&& llc.all_cpus == old_llc.all_cpus
                &&& llc.cores == old_llc.cores.insert(c, core)
                &&& llc.span.nr_cpu_ids == old_llc.span.nr_cpu_ids
                &&& llc.span.cpus == if new {
                    old_llc.span.cpus.insert(u)
                } else {
                    old_llc.span.cpus
                }
            }
            &&& !build.node.llcs.contains_key(l) ==> {
                &&& llc.id == l && llc.kernel_id == l3_of(facts, u) && llc.node_id == n
                &&& llc.all_cpus == Map::<usize, Cpu>::empty()
                &&& llc.cores == map![c => core]
                &&& llc.span.nr_cpu_ids == facts.online.nr_cpu_ids
                &&& llc.span.cpus == if new {
                    set![u]
                } else {
                    Set::empty()
                }
            }
            &&& build.node.has_core(l, c) ==> {
                let old_core = build.node.llcs[l].cores[c];
                &&& core.id == old_core.id && core.kernel_id == old_core.kernel_id
                &&& core.llc_id == old_core.llc_id && core.node_id == old_core.node_id
                &&& core.core_type == old_core.core_type
                &&& core.cpus == old_core.cpus.insert(u, core.cpus[u])
                &&& core.span.nr_cpu_ids == old_core.span.nr_cpu_ids
                &&& core.span.cpus == if new {
                    old_core.span.cpus.insert(u)
                } else {
                    old_core.span.cpus
                }
            }
            &&& !build.node.has_core(l, c) ==> {
                &&& core.id == c && core.kernel_id == kernel_id
                &&& core.llc_id == l && core.node_id == n
                &&& core.core_type == core.cpus[u].core_type
                &&& core.cpus == map![u => core.cpus[u]]
                &&& core.span.nr_cpu_ids == facts.online.nr_cpu_ids
                &&& core.span.cpus == if new {
                    set![u]
                } else {
                    Set::empty()
                }
            }
        }),
{
    let after = build.inserted(facts, u);
    let n = build.node.id;
    let l = builder::id_for(build.ctx.llcs, (n, l3_of(facts, u)));
    let c = builder::id_for(build.ctx.cores, (n, kernel_id));
    let llc = after.node.llcs[l];
    let core = llc.cores[c];
    assert(after.ctx.llcs[(n, l3_of(facts, u))] == l);
    assert(after.ctx.cores[(n, kernel_id)] == c);
    if build.node.llcs.contains_key(l) {
        assert(llc.cores =~= build.node.llcs[l].cores.insert(c, core));
    } else {
        assert(llc.cores =~= map![c => core]);
        assert(llc.span.cpus =~= if !build.node.span.cpus.contains(u) {
            set![u]
        } else {
            Set::empty()
        });
    }
    if build.node.has_core(l, c) {
        assert(core.cpus =~= build.node.llcs[l].cores[c].cpus.insert(u, core.cpus[u]));
    } else {
        assert(core.cpus =~= map![u => core.cpus[u]]);
        assert(core.span.cpus =~= if !build.node.span.cpus.contains(u) {
            set![u]
        } else {
            Set::empty()
        });
    }
}

/// A CPU that is put into a node carries the numbers in its files, its type by them and the
/// IDs of where it is.
pub proof fn law_inserted_cpu_fields(build: Build, facts: Facts, u: usize, kernel_id: usize)
    requires
        facts.online.cpus.contains(u),
        facts.attrs.contains_key(u),
        facts.attrs[u].core_id == Some(kernel_id),
    ensures
        ({
            let n = build.node.id;
            let after = build.inserted(facts, u);
            let l = after.ctx.llcs[(n, l3_of(facts, u))];
            let c = after.ctx.cores[(n, kernel_id)];
            let cpu = after.node.llcs[l].cores[c].cpus[u];
            let files = facts.attrs[u];
            &&& cpu.id == u && cpu.core_id == c && cpu.llc_id == l && cpu.node_id == n
            &&& cpu.min_freq == or_zero(files.min_freq)
            &&& cpu.max_freq == or_zero(files.max_freq)
            &&& files.base_freq matches Some(f) ==> cpu.base_freq == f
            &&& files.base_freq is None ==> cpu.base_freq == or_zero(files.max_freq)
            &&& cpu.trans_lat_ns == or_zero(files.trans_lat_ns)
            &&& cpu.l2_id == or_zero(files.l2_id)
            &&& cpu.l3_id == or_zero(files.l3_id)
            &&& facts.avg_cpu_freq matches Some((average, highest)) ==> {
                &&& cpu.core_type == CoreType::Little <==> cpu.max_freq != highest && cpu.base_freq
                    < average
                &&& cpu.core_type == (CoreType::Big { turbo: true }) <==> cpu.max_freq == highest
            }
            &&& facts.avg_cpu_freq is None ==> cpu.core_type == (CoreType::Big { turbo: false })
        }),
{
    let n = build.node.id;
    let after = build.inserted(facts, u);
    let l = builder::id_for(build.ctx.llcs, (n, l3_of(facts, u)));
    let c = builder::id_for(build.ctx.cores, (n, kernel_id));
    assert(after.ctx.llcs[(n, l3_of(facts, u))] == l);
    assert(after.ctx.cores[(n, kernel_id)] == c);
}

/// Putting nodes together keeps them: a topology has the nodes, LLCs, cores and CPUs that it
/// was put together from, and the span that it was given, whose CPUs it counts.
pub proof fn law_assembly_keeps_nodes(
    span: CpumaskView,
    nodes: Map<usize, NodeView>,
    topo: TopologyView,
    n: usize,
    l: usize,
)
    requires
        topology::assembled(span, nodes) == Ok::<_, ErrorView>(topo),
        span.cpus.len() <= usize::MAX,
    ensures
        topo.span == span,
        topo.nr_cpus_online == span.cpus.len(),
        topo.nodes.contains_key(n) <==> nodes.contains_key(n),
        nodes.contains_key(n) ==> {
            &&& topo.nodes[n].id == nodes[n].id
            &&& topo.nodes[n].span == nodes[n].span
            &&& topo.nodes[n].gpus == nodes[n].gpus
            &&& topo.nodes[n].llcs.contains_key(l) <==> nodes[n].llcs.contains_key(l)
            &&& nodes[n].llcs.contains_key(l) ==> {
                let llc = topo.nodes[n].llcs[l];
                &&& llc.id == nodes[n].llcs[l].id
                &&& llc.kernel_id == nodes[n].llcs[l].kernel_id
                &&& llc.cores == nodes[n].llcs[l].cores
                &&& llc.span == nodes[n].llcs[l].span
                &&& llc.node_id == nodes[n].llcs[l].node_id
            }
        },
{
}

/// The view of an error has what the error has.
pub proof fn law_error_views(error: TopologyError)
    ensures
        match error {
            TopologyError::OnlineUnreadable => error@ == ErrorView::OnlineUnreadable,
            TopologyError::ParseOnline { group } => error@ == (ErrorView::ParseOnline {
                group: group@,
            }),
            TopologyError::InvalidCpu { cpu, nr_cpu_ids } => error@ == (ErrorView::InvalidCpu {
                cpu,
                nr_cpu_ids,
            }),
            TopologyError::CoreIdUnreadable { cpu } => error@ == (ErrorView::CoreIdUnreadable {
                cpu,
            }),
            TopologyError::NodeHasCpu { node, cpu } => error@ == (ErrorView::NodeHasCpu {
                node,
                cpu,
            }),
            TopologyError::ParseCpuId { path } => error@ == (ErrorView::ParseCpuId { path: path@ }),
            TopologyError::ParseNodeId { path } => error@ == (ErrorView::ParseNodeId {
                path: path@,
            }),
            TopologyError::NoCpuDirectory => error@ == ErrorView::NoCpuDirectory,
            TopologyError::DuplicateCpu { id } => error@ == (ErrorView::DuplicateCpu { id }),
            TopologyError::DuplicateCore { id } => error@ == (ErrorView::DuplicateCore { id }),
            TopologyError::DuplicateLlc { id } => error@ == (ErrorView::DuplicateLlc { id }),
        },
{
}

} // verus!
