//! In which order the CPUs of a host are visited, and what follows from it.

use crate::builder;
use crate::builder::{Build, Facts, TopoCtxView};
use crate::cpumask::CpumaskView;
use crate::error::ErrorView;
use crate::hierarchy::{CoreView, LlcView};
use crate::host;
use crate::laws;
use crate::soundness;
use crate::sysfs;
use crate::sysfs::{NodeDir, Sysfs};
use crate::topology;
use crate::topology::TopologyView;
use vstd::prelude::*;

verus! {

/// The CPUs that the directory of a NUMA node lists, with the ID of the node.
pub open spec fn dir_visits(dir: NodeDir) -> Seq<(usize, usize)> {
    dir.cpu_paths@.map_values(
        |path: String|
            (sysfs::node_dir_id(dir.path@).unwrap(), sysfs::node_cpu_id(path@).unwrap()),
    )
}

/// The CPUs that the directories of NUMA nodes list, one directory after the other.
pub open spec fn numa_visits(dirs: Seq<NodeDir>) -> Seq<(usize, usize)>
    decreases dirs.len(),
{
    if dirs.len() == 0 {
        Seq::empty()
    } else {
        numa_visits(dirs.drop_last()) + dir_visits(dirs.last())
    }
}

/// The CPUs in the order in which they are put into a topology, each with the ID of its
/// node: as the NUMA directories list them, or else from the lowest to the highest.
pub open spec fn visits(sys: Sysfs, flattened: bool) -> Seq<(usize, usize)> {
    if !flattened && sys.has_node_dir {
        numa_visits(sys.node_dirs@)
    } else {
        sysfs::cpu_ids(sys.cpu_dirs@)->Ok_0.map_values(|u: usize| (0usize, u))
    }
}

/// Whether the visit `p` is of an online CPU whose node and kernel ID are `key`.
pub open spec fn hits(
    visits: Seq<(usize, usize)>,
    p: int,
    online: Set<usize>,
    kernel_id: spec_fn(usize) -> Option<usize>,
    key: (usize, usize),
) -> bool {
    &&& 0 <= p < visits.len()
    &&& visits[p].0 == key.0
    &&& online.contains(visits[p].1)
    &&& kernel_id(visits[p].1) == Some(key.1)
}

/// Whether `key` is visited before `other`: at a visit up to which `other` is not.
pub open spec fn before(
    visits: Seq<(usize, usize)>,
    online: Set<usize>,
    kernel_id: spec_fn(usize) -> Option<usize>,
    key: (usize, usize),
    other: (usize, usize),
) -> bool {
    exists|p: int| #[trigger]
        hits(visits, p, online, kernel_id, key) && (forall|q: int|
            0 <= q <= p ==> !#[trigger] hits(visits, q, online, kernel_id, other))
}

/// Whether IDs were given out in the order of the visits.
pub open spec fn ordered(
    ids: Map<(usize, usize), usize>,
    visits: Seq<(usize, usize)>,
    online: Set<usize>,
    kernel_id: spec_fn(usize) -> Option<usize>,
) -> bool {
    &&& forall|k: (usize, usize)| #[trigger]
        ids.contains_key(k) <==> exists|p: int| #[trigger] hits(visits, p, online, kernel_id, k)
    &&& forall|j: (usize, usize), k: (usize, usize)| #[trigger]
        ids.contains_key(j) && #[trigger] ids.contains_key(k) && ids[j] < ids[k] ==> before(
            visits,
            online,
            kernel_id,
            j,
            k,
        )
}

/// The kernel IDs of cores.
spec fn core_kernel_id(facts: Facts) -> spec_fn(usize) -> Option<usize> {
    |u: usize| facts.of(u).core_id
}

/// The kernel IDs of LLCs.
spec fn llc_kernel_id(facts: Facts) -> spec_fn(usize) -> Option<usize> {
    |u: usize| Some(facts.llc_kernel_id(u))
}

proof fn lemma_ordered_step(
    ids: Map<(usize, usize), usize>,
    visits: Seq<(usize, usize)>,
    n: usize,
    u: usize,
    online: Set<usize>,
    kernel_id: spec_fn(usize) -> Option<usize>,
    after: Map<(usize, usize), usize>,
)
    requires
        soundness::ids_sound(ids),
        ordered(ids, visits, online, kernel_id),
        after.len() <= usize::MAX,
        online.contains(u) ==> kernel_id(u) is Some && after == builder::with_id(
            ids,
            (n, kernel_id(u).unwrap()),
        ),
        !online.contains(u) ==> after == ids,
    ensures
        ordered(after, visits.push((n, u)), online, kernel_id),
{
    let longer = visits.push((n, u));
    let last = visits.len() as int;
    assert forall|p: int, k: (usize, usize)| p != last implies #[trigger] hits(
        longer,
        p,
        online,
        kernel_id,
        k,
    ) == hits(visits, p, online, kernel_id, k) by {}
    if online.contains(u) {
        let key = (n, kernel_id(u).unwrap());
        soundness::law_ids_increase(ids, key);
        assert(hits(longer, last, online, kernel_id, key));
        assert forall|k: (usize, usize)| #[trigger] after.contains_key(k) <==> exists|p: int|
            #[trigger] hits(longer, p, online, kernel_id, k) by {
            if ids.contains_key(k) {
                let p = choose|p: int| #[trigger] hits(visits, p, online, kernel_id, k);
                assert(hits(longer, p, online, kernel_id, k));
            }
            if exists|p: int| #[trigger] hits(longer, p, online, kernel_id, k) {
                let p = choose|p: int| #[trigger] hits(longer, p, online, kernel_id, k);
                if p != last {
                    assert(hits(visits, p, online, kernel_id, k));
                }
            }
        }
        assert forall|j: (usize, usize), k: (usize, usize)| #[trigger]
            after.contains_key(j) && #[trigger] after.contains_key(k) && after[j]
            < after[k] implies before(longer, online, kernel_id, j, k) by {
            assert(ids.contains_key(j));
            if ids.contains_key(k) {
                assert(before(visits, online, kernel_id, j, k));
                let p = choose|p: int| #[trigger]
                    hits(visits, p, online, kernel_id, j) && (forall|q: int|
                        0 <= q <= p ==> !#[trigger] hits(visits, q, online, kernel_id, k));
                assert(hits(longer, p, online, kernel_id, j));
                assert forall|q: int| 0 <= q <= p implies !#[trigger] hits(
                    longer,
                    q,
                    online,
                    kernel_id,
                    k,
                ) by {
                    assert(!hits(visits, q, online, kernel_id, k));
                }
            } else {
                let p = choose|p: int| #[trigger] hits(visits, p, online, kernel_id, j);
                assert(hits(longer, p, online, kernel_id, j));
                assert forall|q: int| 0 <= q <= p implies !#[trigger] hits(
                    longer,
                    q,
                    online,
                    kernel_id,
                    k,
                ) by {
                    assert(!hits(visits, q, online, kernel_id, k));
                }
            }
        }
    } else {
        assert forall|k: (usize, usize)| #[trigger] after.contains_key(k) <==> exists|p: int|
            #[trigger] hits(longer, p, online, kernel_id, k) by {
            if ids.contains_key(k) {
                let p = choose|p: int| #[trigger] hits(visits, p, online, kernel_id, k);
                assert(hits(longer, p, online, kernel_id, k));
            }
            if exists|p: int| #[trigger] hits(longer, p, online, kernel_id, k) {
                let p = choose|p: int| #[trigger] hits(longer, p, online, kernel_id, k);
                assert(hits(visits, p, online, kernel_id, k));
            }
        }
        assert forall|j: (usize, usize), k: (usize, usize)| #[trigger]
            after.contains_key(j) && #[trigger] after.contains_key(k) && after[j]
            < after[k] implies before(longer, online, kernel_id, j, k) by {
            assert(before(visits, online, kernel_id, j, k));
            let p = choose|p: int| #[trigger]
                hits(visits, p, online, kernel_id, j) && (forall|q: int|
                    0 <= q <= p ==> !#[trigger] hits(visits, q, online, kernel_id, k));
            assert(hits(longer, p, online, kernel_id, j));
            assert forall|q: int| 0 <= q <= p implies !#[trigger] hits(
                longer,
                q,
                online,
                kernel_id,
                k,
            ) by {
                assert(!hits(visits, q, online, kernel_id, k));
            }
        }
    }
}

/// Items of CPUs, with the ID of their node.
spec fn item_visits(n: usize, items: Seq<Result<usize, ErrorView>>) -> Seq<(usize, usize)> {
    items.map_values(|item: Result<usize, ErrorView>| (n, item->Ok_0))
}

proof fn lemma_filled_ordered(
    build: Build,
    facts: Facts,
    items: Seq<Result<usize, ErrorView>>,
    done: Seq<(usize, usize)>,
)
    requires
        build.sound(facts),
        build.filled(facts, items).1 is None,
        build.filled(facts, items).0.ctx.countable(),
        ordered(build.ctx.cores, done, facts.online.cpus, core_kernel_id(facts)),
        ordered(build.ctx.llcs, done, facts.online.cpus, llc_kernel_id(facts)),
    ensures
        ordered(
            build.filled(facts, items).0.ctx.cores,
            done + item_visits(build.node.id, items),
            facts.online.cpus,
            core_kernel_id(facts),
        ),
        ordered(
            build.filled(facts, items).0.ctx.llcs,
            done + item_visits(build.node.id, items),
            facts.online.cpus,
            llc_kernel_id(facts),
        ),
    decreases items.len(),
{
    let n = build.node.id;
    let all = done + item_visits(n, items);
    if items.len() == 0 {
        assert(all == done);
    } else {
        let head = items.drop_last();
        let (start, _) = build.filled(facts, head);
        let after = build.filled(facts, items).0;
        let u = items.last()->Ok_0;
        soundness::lemma_filled_grows(build, facts, head);
        soundness::lemma_insert_grows(start, facts, u);
        soundness::law_fill_keeps_sound(build, facts, head);
        lemma_filled_ordered(build, facts, head, done);
        let some = done + item_visits(n, head);
        assert(all =~= some.push((n, u)));
        let online = facts.online.cpus;
        let core_ids = core_kernel_id(facts);
        let llc_ids = llc_kernel_id(facts);
        lemma_ordered_step(start.ctx.cores, some, n, u, online, core_ids, after.ctx.cores);
        lemma_ordered_step(start.ctx.llcs, some, n, u, online, llc_ids, after.ctx.llcs);
    }
}

proof fn lemma_numa_ordered(sys: Sysfs, dirs: Seq<NodeDir>, online: CpumaskView)
    requires
        builder::numa_nodes(sys, dirs, online, TopoCtxView::none()).error is None,
        builder::numa_nodes(sys, dirs, online, TopoCtxView::none()).ctx.countable(),
    ensures
        ordered(
            builder::numa_nodes(sys, dirs, online, TopoCtxView::none()).ctx.cores,
            numa_visits(dirs),
            online.cpus,
            core_kernel_id(builder::facts_of(sys, online, false)),
        ),
        ordered(
            builder::numa_nodes(sys, dirs, online, TopoCtxView::none()).ctx.llcs,
            numa_visits(dirs),
            online.cpus,
            llc_kernel_id(builder::facts_of(sys, online, false)),
        ),
    decreases dirs.len(),
{
    let facts = builder::facts_of(sys, online, false);
    if dirs.len() > 0 {
        let head = dirs.drop_last();
        let made = builder::numa_nodes(sys, head, online, TopoCtxView::none());
        let n = sysfs::node_dir_id(dirs.last().path@).unwrap();
        let node = builder::empty_node(
            n,
            online.nr_cpu_ids,
            builder::gpus_of_node(sys.gpus@, n),
        );
        let start = Build { node, ctx: made.ctx };
        let items = builder::node_items(dirs.last());
        soundness::lemma_numa_finite(sys, head, online, TopoCtxView::none());
        soundness::lemma_filled_grows(start, facts, items);
        soundness::lemma_numa(sys, head, online);
        lemma_numa_ordered(sys, head, online);
        lemma_filled_ordered(start, facts, items, numa_visits(head));
        lemma_items_ok(start, facts, items);
        assert(item_visits(n, items) =~= dir_visits(dirs.last())) by {
            assert forall|j: int| 0 <= j < items.len() implies item_visits(n, items)[j]
                == dir_visits(dirs.last())[j] by {
                assert(items[j] is Ok);
            }
        }
    }
}

/// A node that was filled was filled from CPUs alone.
proof fn lemma_items_ok(build: Build, facts: Facts, items: Seq<Result<usize, ErrorView>>)
    requires
        build.filled(facts, items).1 is None,
    ensures
        forall|j: int| 0 <= j < items.len() ==> (#[trigger] items[j]) is Ok,
    decreases items.len(),
{
    if items.len() > 0 {
        let head = items.drop_last();
        lemma_items_ok(build, facts, head);
        assert forall|j: int| 0 <= j < items.len() implies (#[trigger] items[j]) is Ok by {
            if j < head.len() {
                assert(head[j] is Ok);
            }
        }
    }
}

proof fn lemma_ids_ordered(sys: Sysfs, online: CpumaskView, flattened: bool)
    requires
        topology::nodes_of(sys, online, flattened).error is None,
        topology::nodes_of(sys, online, flattened).ctx.countable(),
    ensures
        ordered(
            topology::nodes_of(sys, online, flattened).ctx.cores,
            visits(sys, flattened),
            online.cpus,
            core_kernel_id(builder::facts_of(sys, online, flattened)),
        ),
        ordered(
            topology::nodes_of(sys, online, flattened).ctx.llcs,
            visits(sys, flattened),
            online.cpus,
            llc_kernel_id(builder::facts_of(sys, online, flattened)),
        ),
{
    let facts = builder::facts_of(sys, online, flattened);
    if !flattened && sys.has_node_dir {
        lemma_numa_ordered(sys, sys.node_dirs@, online);
    } else {
        let node = builder::empty_node(
            0,
            online.nr_cpu_ids,
            builder::gpus_of_node(sys.gpus@, 0),
        );
        let start = Build { node, ctx: TopoCtxView::none() };
        let ids = sysfs::cpu_ids(sys.cpu_dirs@)->Ok_0;
        let items = builder::ids_as_items(ids);
        let none = Seq::<(usize, usize)>::empty();
        lemma_filled_ordered(start, facts, items, none);
        assert(none + item_visits(0, items) =~= visits(sys, flattened));
    }
}

/// Whether the visit `p` is of an online CPU of the core `c`, by its node and its file.
pub open spec fn visits_core(
    sys: Sysfs,
    flattened: bool,
    topo: TopologyView,
    p: int,
    c: usize,
) -> bool {
    let (n, u) = visits(sys, flattened)[p];
    &&& 0 <= p < visits(sys, flattened).len()
    &&& n == topo.all_cores[c].node_id
    &&& topo.span.cpus.contains(u)
    &&& sys.cpus@.contains_key(u)
    &&& sys.cpus@[u].core_id == Some(topo.all_cores[c].kernel_id)
}

/// Cores are numbered in the order in which their CPUs are visited: of two cores, the one
/// with the lower ID is visited first.
pub proof fn law_cores_are_numbered_in_order(
    sys: Sysfs,
    flattened: bool,
    topo: TopologyView,
    c: usize,
    d: usize,
)
    requires
        topology::built(sys, flattened) == Ok::<_, ErrorView>(topo),
        topology::nodes_of(sys, topo.span, flattened).ctx.countable(),
        topo.all_cores.contains_key(c),
        topo.all_cores.contains_key(d),
        c < d,
    ensures
        exists|p: int| #[trigger]
            visits_core(sys, flattened, topo, p, c) && (forall|q: int|
                0 <= q <= p ==> !#[trigger] visits_core(sys, flattened, topo, q, d)),
{
    let facts = builder::facts_of(sys, topo.span, flattened);
    let made = topology::nodes_of(sys, topo.span, flattened);
    let online = topo.span.cpus;
    let ids = core_kernel_id(facts);
    let all = visits(sys, flattened);
    laws::law_topology_is_sound(sys, flattened, topo);
    soundness::lemma_nodes(sys, topo.span, flattened);
    lemma_ids_ordered(sys, topo.span, flattened);
    let j = lemma_core_key(sys, flattened, topo, c);
    let k = lemma_core_key(sys, flattened, topo, d);
    assert(before(all, online, ids, j, k));
    let p = choose|p: int| #[trigger]
        hits(all, p, online, ids, j) && (forall|q: int|
            0 <= q <= p ==> !#[trigger] hits(all, q, online, ids, k));
    assert(visits_core(sys, flattened, topo, p, c));
    assert forall|q: int| 0 <= q <= p implies !#[trigger] visits_core(
        sys,
        flattened,
        topo,
        q,
        d,
    ) by {
        assert(!hits(all, q, online, ids, k));
    }
}

/// The node and the kernel ID of a core got its ID.
proof fn lemma_core_key(sys: Sysfs, flattened: bool, topo: TopologyView, c: usize) -> (key: (
    usize,
    usize,
))
    requires
        topology::built(sys, flattened) == Ok::<_, ErrorView>(topo),
        topology::nodes_of(sys, topo.span, flattened).ctx.countable(),
        topo.sound(builder::facts_of(sys, topo.span, flattened)),
        topo.all_cores.contains_key(c),
    ensures
        key == (topo.all_cores[c].node_id, topo.all_cores[c].kernel_id),
        topology::nodes_of(sys, topo.span, flattened).ctx.cores.contains_key(key),
        topology::nodes_of(sys, topo.span, flattened).ctx.cores[key] == c,
{
    let facts = builder::facts_of(sys, topo.span, flattened);
    let made = topology::nodes_of(sys, topo.span, flattened);
    soundness::lemma_nodes(sys, topo.span, flattened);
    let (n, l) = choose|n: usize, l: usize| topo.has_core(n, l, c);
    assert(topo.has_core(n, l, c));
    let llc = topo.nodes[n].llcs[l];
    assert(llc.sound(facts, l, n));
    assert(llc.cores[c].sound(facts, c, l, llc.kernel_id, n));
    assert(made.nodes.contains_key(n));
    assert(made.ctx.names(made.nodes[n]));
    assert(made.nodes[n].llcs.contains_key(l) && made.nodes[n].llcs[l].cores.contains_key(c));
    (n, llc.cores[c].kernel_id)
}

/// Whether the visit `p` is of an online CPU of the LLC `l`, by its node and its file.
/// Flattened, a node has one LLC.
pub open spec fn visits_llc(
    sys: Sysfs,
    flattened: bool,
    topo: TopologyView,
    p: int,
    l: usize,
) -> bool {
    let (n, u) = visits(sys, flattened)[p];
    &&& 0 <= p < visits(sys, flattened).len()
    &&& n == topo.all_llcs[l].node_id
    &&& topo.span.cpus.contains(u)
    &&& flattened || (if sys.cpus@.contains_key(u) {
        host::or_zero(sys.cpus@[u].l3_id)
    } else {
        0
    }) == topo.all_llcs[l].kernel_id
}

/// LLCs are numbered in the order in which their CPUs are visited: of two LLCs, the one
/// with the lower ID is visited first.
pub proof fn law_llcs_are_numbered_in_order(
    sys: Sysfs,
    flattened: bool,
    topo: TopologyView,
    l: usize,
    m: usize,
)
    requires
        topology::built(sys, flattened) == Ok::<_, ErrorView>(topo),
        topology::nodes_of(sys, topo.span, flattened).ctx.countable(),
        topo.all_llcs.contains_key(l),
        topo.all_llcs.contains_key(m),
        l < m,
    ensures
        exists|p: int| #[trigger]
            visits_llc(sys, flattened, topo, p, l) && (forall|q: int|
                0 <= q <= p ==> !#[trigger] visits_llc(sys, flattened, topo, q, m)),
{
    let facts = builder::facts_of(sys, topo.span, flattened);
    let made = topology::nodes_of(sys, topo.span, flattened);
    let online = topo.span.cpus;
    let ids = llc_kernel_id(facts);
    let all = visits(sys, flattened);
    laws::law_topology_is_sound(sys, flattened, topo);
    soundness::lemma_nodes(sys, topo.span, flattened);
    lemma_ids_ordered(sys, topo.span, flattened);
    if flattened {
        let n = choose|n: usize| topo.has_llc(n, m);
        laws::law_flattened_llc(sys, topo, n, m);
    }
    let j = lemma_llc_key(sys, flattened, topo, l);
    let k = lemma_llc_key(sys, flattened, topo, m);
    assert(before(all, online, ids, j, k));
    let p = choose|p: int| #[trigger]
        hits(all, p, online, ids, j) && (forall|q: int|
            0 <= q <= p ==> !#[trigger] hits(all, q, online, ids, k));
    assert(visits_llc(sys, flattened, topo, p, l));
    assert forall|q: int| 0 <= q <= p implies !#[trigger] visits_llc(
        sys,
        flattened,
        topo,
        q,
        m,
    ) by {
        assert(!hits(all, q, online, ids, k));
    }
}

/// The node and the kernel ID of an LLC got its ID.
proof fn lemma_llc_key(sys: Sysfs, flattened: bool, topo: TopologyView, l: usize) -> (key: (
    usize,
    usize,
))
    requires
        topology::built(sys, flattened) == Ok::<_, ErrorView>(topo),
        topology::nodes_of(sys, topo.span, flattened).ctx.countable(),
        topo.sound(builder::facts_of(sys, topo.span, flattened)),
        topo.all_llcs.contains_key(l),
    ensures
        key == (topo.all_llcs[l].node_id, topo.all_llcs[l].kernel_id),
        topology::nodes_of(sys, topo.span, flattened).ctx.llcs.contains_key(key),
        topology::nodes_of(sys, topo.span, flattened).ctx.llcs[key] == l,
{
    let facts = builder::facts_of(sys, topo.span, flattened);
    let made = topology::nodes_of(sys, topo.span, flattened);
    soundness::lemma_nodes(sys, topo.span, flattened);
    let n = choose|n: usize| topo.has_llc(n, l);
    assert(topo.has_llc(n, l));
    let llc = topo.nodes[n].llcs[l];
    assert(llc.sound(facts, l, n));
    assert(made.nodes.contains_key(n));
    assert(made.ctx.names(made.nodes[n]));
    assert(made.nodes[n].llcs.contains_key(l));
    (n, llc.kernel_id)
}

/// Whether the item at `j` is the first one that is a CPU of the core.
spec fn first_item(items: Seq<Result<usize, ErrorView>>, j: int, core: CoreView, u: usize) -> bool {
    &&& 0 <= j < items.len()
    &&& items[j] == Ok::<usize, ErrorView>(u)
    &&& core.cpus.contains_key(u)
    &&& forall|k: int|
        0 <= k < j ==> (#[trigger] items[k] matches Ok(v) ==> !core.cpus.contains_key(v))
}

/// Each core of a node that was filled from nothing has the type of the first item that is
/// a CPU of it.
proof fn lemma_filled_types(
    build: Build,
    facts: Facts,
    items: Seq<Result<usize, ErrorView>>,
    l: usize,
    c: usize,
) -> (first: (int, usize))
    requires
        build.ctx.finite(),
        build.node.llcs == Map::<usize, LlcView>::empty(),
        build.node.span.cpus == Set::<usize>::empty(),
        build.filled(facts, items).1 is None,
        build.filled(facts, items).0.node.has_core(l, c),
    ensures
        first_item(
            items,
            first.0,
            build.filled(facts, items).0.node.llcs[l].cores[c],
            first.1,
        ),
        build.filled(facts, items).0.node.llcs[l].cores[c].core_type == facts.core_type(first.1),
    decreases items.len(),
{
    let after = build.filled(facts, items).0;
    let core = after.node.llcs[l].cores[c];
    if items.len() == 0 {
        (0, 0)
    } else {
        let head = items.drop_last();
        let start = build.filled(facts, head).0;
        let cpu = items.last()->Ok_0;
        let last = items.len() - 1;
        soundness::lemma_filled_grows(build, facts, head);
        assert(start.node.span.cpus =~= soundness::online_items(facts, head));
        assert(facts.online.cpus.contains(cpu) ==> !head.contains(Ok::<usize, ErrorView>(cpu))) by {
            if facts.online.cpus.contains(cpu) && head.contains(Ok::<usize, ErrorView>(cpu)) {
                assert(start.node.span.cpus.contains(cpu));
            }
        }
        assert forall|k: int| 0 <= k < last && facts.online.cpus.contains(cpu) implies #[trigger]
            items[k] != Ok::<usize, ErrorView>(cpu) by {
            assert(head[k] == items[k]);
            assert(head.contains(head[k]));
        }
        if start.node.has_core(l, c) {
            let (j, u) = lemma_filled_types(build, facts, head, l, c);
            let old_core = start.node.llcs[l].cores[c];
            assert(items[j] == head[j]);
            assert forall|k: int| 0 <= k < j implies (#[trigger] items[k] matches Ok(v)
                ==> !core.cpus.contains_key(v)) by {
                assert(items[k] == head[k]);
                if items[k] is Ok {
                    assert(!old_core.cpus.contains_key(items[k]->Ok_0));
                }
            }
            assert(first_item(items, j, core, u));
            (j, u)
        } else {
            assert(core.cpus.contains_key(cpu));
            assert forall|k: int| 0 <= k < last implies (#[trigger] items[k] matches Ok(v)
                ==> !core.cpus.contains_key(v)) by {}
            assert(first_item(items, last, core, cpu));
            (last, cpu)
        }
    }
}

/// A NUMA node is filled from nothing with what its last directory lists.
proof fn lemma_numa_node(
    sys: Sysfs,
    dirs: Seq<NodeDir>,
    online: CpumaskView,
    i: int,
    n: usize,
) -> (start: Build)
    requires
        builder::numa_nodes(sys, dirs, online, TopoCtxView::none()).error is None,
        soundness::last_dir_of(dirs, i, n),
    ensures
        start.ctx.finite(),
        start.node == builder::empty_node(
            n,
            online.nr_cpu_ids,
            builder::gpus_of_node(sys.gpus@, n),
        ),
        start.filled(
            builder::facts_of(sys, online, false),
            builder::node_items(dirs[i]),
        ).1 is None,
        builder::numa_nodes(sys, dirs, online, TopoCtxView::none()).nodes[n] == start.filled(
            builder::facts_of(sys, online, false),
            builder::node_items(dirs[i]),
        ).0.node,
    decreases dirs.len(),
{
    let head = dirs.drop_last();
    let made = builder::numa_nodes(sys, head, online, TopoCtxView::none());
    let facts = builder::facts_of(sys, online, false);
    soundness::lemma_numa_finite(sys, head, online, TopoCtxView::none());
    let m = sysfs::node_dir_id(dirs.last().path@).unwrap();
    let node = builder::empty_node(m, online.nr_cpu_ids, builder::gpus_of_node(sys.gpus@, m));
    let start = Build { node, ctx: made.ctx };
    soundness::lemma_filled_grows(start, facts, builder::node_items(dirs.last()));
    if i == dirs.len() - 1 {
        start
    } else {
        assert(sysfs::node_dir_id(dirs[dirs.len() - 1].path@) != Some(n));
        assert(head[i] == dirs[i]);
        assert forall|j: int| i < j < head.len() implies sysfs::node_dir_id(
            #[trigger] head[j].path@,
        ) != Some(n) by {
            assert(head[j] == dirs[j]);
            assert(sysfs::node_dir_id(dirs[j].path@) != Some(n));
        }
        lemma_numa_node(sys, head, online, i, n)
    }
}

/// Whether the directory of a NUMA node lists the CPU `u` at `j`, and no CPU of the core
/// before it.
pub open spec fn first_listed(dir: NodeDir, j: int, core: CoreView, u: usize) -> bool {
    &&& 0 <= j < dir.cpu_paths@.len()
    &&& sysfs::node_cpu_id(dir.cpu_paths@[j]@) == Some(u)
    &&& core.cpus.contains_key(u)
    &&& forall|k: int|
        0 <= k < j ==> (sysfs::node_cpu_id((#[trigger] dir.cpu_paths@[k])@) matches Some(v)
            ==> !core.cpus.contains_key(v))
}

/// A core of a NUMA node has the type of the first of its CPUs that the directory of the
/// node lists.
pub proof fn law_core_type_in_numa_node(sys: Sysfs, topo: TopologyView, i: int, c: usize)
    requires
        topology::built(sys, false) == Ok::<_, ErrorView>(topo),
        topology::nodes_of(sys, topo.span, false).ctx.countable(),
        sys.has_node_dir,
        topo.all_cores.contains_key(c),
        soundness::last_dir_of(sys.node_dirs@, i, topo.all_cores[c].node_id),
    ensures
        exists|j: int, u: usize| #[trigger]
            first_listed(sys.node_dirs@[i], j, topo.all_cores[c], u) && topo.all_cores[c].core_type
                == topo.all_cpus[u].core_type,
{
    let facts = builder::facts_of(sys, topo.span, false);
    let made = topology::nodes_of(sys, topo.span, false);
    let dir = sys.node_dirs@[i];
    let items = builder::node_items(dir);
    laws::law_topology_is_sound(sys, false, topo);
    let (n, l) = choose|n: usize, l: usize| topo.has_core(n, l, c);
    assert(topo.has_core(n, l, c));
    let llc = topo.nodes[n].llcs[l];
    assert(llc.sound(facts, l, n));
    let core = llc.cores[c];
    assert(core.sound(facts, c, l, llc.kernel_id, n));
    let start = lemma_numa_node(sys, sys.node_dirs@, topo.span, i, n);
    assert(made.nodes[n].has_core(l, c));
    let (j, u) = lemma_filled_types(start, facts, items, l, c);
    assert forall|k: int| 0 <= k < j implies (sysfs::node_cpu_id(
        (#[trigger] dir.cpu_paths@[k])@,
    ) matches Some(v) ==> !core.cpus.contains_key(v)) by {
        assert(items[k] == builder::node_item(dir.cpu_paths@[k]@));
    }
    assert(items[j] == builder::node_item(dir.cpu_paths@[j]@));
    assert(first_listed(dir, j, core, u));
    assert(topo.has_cpu(n, l, c, u));
    assert(core.cpus[u] == facts.cpu(u, c, l, n));
}

/// Without NUMA nodes a core has the type of its lowest CPU.
pub proof fn law_core_type_in_default_node(
    sys: Sysfs,
    flattened: bool,
    topo: TopologyView,
    c: usize,
    u: usize,
)
    requires
        topology::built(sys, flattened) == Ok::<_, ErrorView>(topo),
        topology::nodes_of(sys, topo.span, flattened).ctx.countable(),
        flattened || !sys.has_node_dir,
        topo.all_cores.contains_key(c),
        topo.all_cores[c].cpus.contains_key(u),
        forall|v: usize| #[trigger] topo.all_cores[c].cpus.contains_key(v) ==> u <= v,
    ensures
        topo.all_cores[c].core_type == topo.all_cpus[u].core_type,
{
    let facts = builder::facts_of(sys, topo.span, flattened);
    let made = topology::nodes_of(sys, topo.span, flattened);
    let ids = sysfs::cpu_ids(sys.cpu_dirs@)->Ok_0;
    let items = builder::ids_as_items(ids);
    laws::law_topology_is_sound(sys, flattened, topo);
    laws::law_cpu_ids(sys.cpu_dirs@, ids);
    let (n, l) = choose|n: usize, l: usize| topo.has_core(n, l, c);
    assert(topo.has_core(n, l, c));
    let llc = topo.nodes[n].llcs[l];
    assert(llc.sound(facts, l, n));
    let core = llc.cores[c];
    assert(core.sound(facts, c, l, llc.kernel_id, n));
    assert(topo.has_cpu(n, l, c, u));
    laws::law_single_node(sys, flattened, topo);
    assert(topo.nodes.dom().contains(n));
    let node = builder::empty_node(
        0,
        topo.span.nr_cpu_ids,
        builder::gpus_of_node(sys.gpus@, 0),
    );
    let start = Build { node, ctx: TopoCtxView::none() };
    assert(made.nodes[0] == start.filled(facts, items).0.node);
    assert(made.nodes[n].has_core(l, c));
    let (j, first) = lemma_filled_types(start, facts, items, l, c);
    soundness::lemma_nodes(sys, topo.span, flattened);
    assert(made.nodes.contains_key(0));
    soundness::lemma_cpu_is_spanned(made.nodes[0], facts, 0, l, c, u);
    soundness::lemma_filled_grows(start, facts, items);
    assert(made.nodes[0].span.cpus =~= soundness::online_items(facts, items));
    assert(items.contains(Ok::<usize, ErrorView>(u)));
    let k = choose|k: int| 0 <= k < items.len() && items[k] == Ok::<usize, ErrorView>(u);
    assert(ids[k] == u && ids[j] == first);
    if k < j {
        assert(items[k] == Ok::<usize, ErrorView>(u));
        assert(!core.cpus.contains_key(u));
    }
    assert(ids[j] <= ids[k]);
    assert(core.cpus.contains_key(first));
    assert(first == u);
    assert(core.cpus[u] == facts.cpu(u, c, l, n));
}

} // verus!
