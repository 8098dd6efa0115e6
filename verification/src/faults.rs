//! On which hosts a topology is owed, and what an error says about the host.

use crate::builder;
use crate::builder::{Build, Facts, TopoCtxView};
use crate::cpumask::CpumaskView;
use crate::error::ErrorView;
use crate::hierarchy::{LlcView, NodeView};
use crate::host;
use crate::indices;
use crate::laws;
use crate::order;
use crate::refusals;
use crate::soundness;
use crate::sysfs;
use crate::sysfs::{CpuDir, NodeDir, Sysfs};
use crate::text;
use crate::topology;
use crate::topology::Member;
use vstd::prelude::*;

verus! {

/// The text with the online CPUs.
pub open spec fn online_text(sys: Sysfs) -> Option<Seq<char>> {
    match sys.online {
        Some(text) => Some(text@),
        None => None,
    }
}

/// Whether the file of a CPU names its core.
pub open spec fn core_known(sys: Sysfs, u: usize) -> bool {
    sys.cpus@.contains_key(u) && sys.cpus@[u].core_id is Some
}

/// Whether the first `k` CPU directories of a NUMA node are those of CPUs of which each
/// online one has a known core and comes up once.
pub open spec fn paths_hold(sys: Sysfs, online: Set<usize>, dir: NodeDir, k: int) -> bool {
    &&& forall|j: int|
        0 <= j < k ==> (sysfs::node_cpu_id((#[trigger] dir.cpu_paths@[j])@) matches Some(u) && (
        online.contains(u) ==> core_known(sys, u)))
    &&& forall|i: int, j: int|
        #![trigger dir.cpu_paths@[i], dir.cpu_paths@[j]]
        0 <= i < j < k && sysfs::node_cpu_id(dir.cpu_paths@[i]@) == sysfs::node_cpu_id(
            dir.cpu_paths@[j]@,
        ) ==> !online.contains(sysfs::node_cpu_id(dir.cpu_paths@[i]@).unwrap())
}

/// Whether the directory of a NUMA node is one, and lists CPUs that can be put into one
/// node.
pub open spec fn dir_holds(sys: Sysfs, online: Set<usize>, dir: NodeDir) -> bool {
    &&& sysfs::node_dir_id(dir.path@) is Some
    &&& paths_hold(sys, online, dir, dir.cpu_paths@.len() as int)
}

/// Whether the CPU directories are those of CPUs of which each online one has a known core
/// and comes up once.
pub open spec fn cpu_dirs_hold(sys: Sysfs, online: Set<usize>) -> bool {
    let dirs = sys.cpu_dirs@;
    &&& sys.has_cpu_dir
    &&& forall|i: int|
        0 <= i < dirs.len() ==> (sysfs::cpu_dir_id(#[trigger] dirs[i].path@) matches Some(u) && (
        online.contains(u) ==> core_known(sys, u)))
    &&& forall|i: int, j: int|
        0 <= i < j < dirs.len() && sysfs::cpu_dir_id(#[trigger] dirs[i].path@) == sysfs::cpu_dir_id(
            #[trigger] dirs[j].path@,
        ) ==> !online.contains(sysfs::cpu_dir_id(dirs[i].path@).unwrap())
}

/// Whether sysfs lists the CPUs of the host in a way that nodes can be made from.
pub open spec fn listing_holds(sys: Sysfs, flattened: bool, online: Set<usize>) -> bool {
    if !flattened && sys.has_node_dir {
        forall|i: int|
            0 <= i < sys.node_dirs@.len() ==> dir_holds(sys, online, #[trigger] sys.node_dirs@[i])
    } else {
        cpu_dirs_hold(sys, online)
    }
}

/// Whether no online CPU is listed for two nodes.
pub open spec fn nodes_disjoint(sys: Sysfs, flattened: bool, online: Set<usize>) -> bool {
    forall|n: usize, m: usize, u: usize|
        online.contains(u) && #[trigger] laws::lists_at(sys, flattened, n, u)
            && #[trigger] laws::lists_at(sys, flattened, m, u) ==> n == m
}

/// Whether the online CPUs of one core of a node share an L3 cache.
pub open spec fn cores_share_caches(sys: Sysfs, flattened: bool, online: Set<usize>) -> bool {
    forall|n: usize, u: usize, v: usize|
        online.contains(u) && online.contains(v) && #[trigger] laws::lists_at(sys, flattened, n, u)
            && #[trigger] laws::lists_at(sys, flattened, n, v) && sys.cpus@[u].core_id
            == sys.cpus@[v].core_id ==> host::or_zero(sys.cpus@[u].l3_id) == host::or_zero(
            sys.cpus@[v].l3_id,
        )
}

/// The items of a directory can be inserted exactly where its paths hold.
proof fn lemma_paths(sys: Sysfs, online: CpumaskView, dir: NodeDir, k: int)
    requires
        0 <= k <= dir.cpu_paths@.len(),
    ensures
        refusals::insertable(
            builder::facts_of(sys, online, false),
            builder::node_items(dir).take(k),
        ) <==> paths_hold(sys, online.cpus, dir, k),
{
    let facts = builder::facts_of(sys, online, false);
    let items = builder::node_items(dir).take(k);
    let paths = dir.cpu_paths@;
    assert forall|j: int| 0 <= j < k implies #[trigger] items[j] == builder::node_item(
        paths[j]@,
    ) by {}
    if refusals::insertable(facts, items) {
        assert forall|j: int| 0 <= j < k implies (sysfs::node_cpu_id(
            (#[trigger] paths[j])@,
        ) matches Some(u) && (online.cpus.contains(u) ==> core_known(sys, u))) by {
            assert(items[j] is Ok);
        }
        assert forall|i: int, j: int|
            #![trigger paths[i], paths[j]]
            0 <= i < j < k && sysfs::node_cpu_id(paths[i]@) == sysfs::node_cpu_id(
                paths[j]@,
            ) implies !online.cpus.contains(sysfs::node_cpu_id(paths[i]@).unwrap()) by {
            assert(items[i] is Ok && items[j] is Ok);
            assert(items[i] == items[j]);
        }
    }
    if paths_hold(sys, online.cpus, dir, k) {
        assert forall|j: int| 0 <= j < items.len() implies (#[trigger] items[j] matches Ok(u) && (
        facts.online.cpus.contains(u) ==> facts.of(u).core_id is Some)) by {
            assert(sysfs::node_cpu_id(paths[j]@) is Some);
        }
        assert forall|i: int, j: int|
            0 <= i < j < items.len() && #[trigger] items[i] == #[trigger] items[j]
                implies !facts.online.cpus.contains(items[i]->Ok_0) by {
            assert(sysfs::node_cpu_id(paths[i]@) is Some);
            assert(sysfs::node_cpu_id(paths[j]@) is Some);
            assert(sysfs::node_cpu_id(paths[i]@) == sysfs::node_cpu_id(paths[j]@));
        }
    }
}

/// A number is at two places of a list exactly where the list has it twice.
proof fn lemma_twice(s: Seq<usize>, u: usize)
    ensures
        s.to_multiset().count(u) >= 2 <==> exists|i: int, j: int|
            0 <= i < j < s.len() && #[trigger] s[i] == u && #[trigger] s[j] == u,
    decreases s.len(),
{
    broadcast use vstd::seq_lib::group_to_multiset_ensures;

    if s.len() > 0 {
        let head = s.drop_last();
        let last = s.len() - 1;
        lemma_twice(head, u);
        assert(head.push(s.last()) == s);
        assert(s.to_multiset() == head.to_multiset().insert(s.last()));
        assert(head.contains(u) <==> head.to_multiset().count(u) > 0);
        if s.to_multiset().count(u) >= 2 {
            if head.to_multiset().count(u) >= 2 {
                let (i, j) = choose|i: int, j: int|
                    0 <= i < j < head.len() && #[trigger] head[i] == u && #[trigger] head[j] == u;
                assert(s[i] == u && s[j] == u);
            } else {
                assert(head.contains(u));
                let i = choose|i: int| 0 <= i < head.len() && head[i] == u;
                assert(s[i] == u && s[last] == u);
            }
        }
        if exists|i: int, j: int|
            0 <= i < j < s.len() && #[trigger] s[i] == u && #[trigger] s[j] == u {
            let (i, j) = choose|i: int, j: int|
                0 <= i < j < s.len() && #[trigger] s[i] == u && #[trigger] s[j] == u;
            assert(head[i] == u);
            assert(head.contains(u));
            if j < last {
                assert(head[j] == u);
            }
        }
    } else {
        assert(s.to_multiset().count(u) == 0) by {
            assert(!s.contains(u));
        }
    }
}

/// The IDs of all CPU directories can be inserted exactly where the directories hold.
proof fn lemma_cpu_dirs(sys: Sysfs, online: CpumaskView, flattened: bool)
    ensures
        ({
            &&& sys.has_cpu_dir
            &&& sysfs::cpu_ids(sys.cpu_dirs@) matches Ok(ids)
            &&& refusals::insertable(
                builder::facts_of(sys, online, flattened),
                builder::ids_as_items(ids),
            )
        }) <==> cpu_dirs_hold(sys, online.cpus),
{
    broadcast use vstd::seq_lib::group_to_multiset_ensures;

    let facts = builder::facts_of(sys, online, flattened);
    let dirs = sys.cpu_dirs@;
    if forall|i: int| 0 <= i < dirs.len() ==> sysfs::cpu_dir_id(#[trigger] dirs[i].path@) is Some {
        lemma_dirs_read(dirs);
    }
    if sysfs::cpu_ids(dirs) is Ok {
        let ids = sysfs::cpu_ids(dirs)->Ok_0;
        let items = builder::ids_as_items(ids);
        let read = dirs.map_values(|dir: CpuDir| sysfs::cpu_dir_id(dir.path@).unwrap());
        laws::law_cpu_ids(dirs, ids);
        assert forall|i: int| 0 <= i < dirs.len() implies sysfs::cpu_dir_id(
            #[trigger] dirs[i].path@,
        ) == Some(read[i]) by {}
        assert forall|u: usize| ids.contains(u) <==> read.contains(u) by {
            assert(ids.contains(u) <==> ids.to_multiset().count(u) > 0);
            assert(read.contains(u) <==> read.to_multiset().count(u) > 0);
        }
        if refusals::insertable(facts, items) {
            assert forall|i: int| 0 <= i < dirs.len() implies (sysfs::cpu_dir_id(
                #[trigger] dirs[i].path@,
            ) matches Some(u) && (online.cpus.contains(u) ==> core_known(sys, u))) by {
                assert(read.contains(read[i]));
                let k = choose|k: int| 0 <= k < ids.len() && ids[k] == read[i];
                assert(items[k] == Ok::<usize, ErrorView>(read[i]));
            }
            assert forall|i: int, j: int|
                0 <= i < j < dirs.len() && sysfs::cpu_dir_id(#[trigger] dirs[i].path@)
                    == sysfs::cpu_dir_id(#[trigger] dirs[j].path@) implies !online.cpus.contains(
                sysfs::cpu_dir_id(dirs[i].path@).unwrap(),
            ) by {
                let u = read[i];
                assert(read[j] == u);
                lemma_twice(read, u);
                lemma_twice(ids, u);
                let (a, b) = choose|a: int, b: int|
                    0 <= a < b < ids.len() && #[trigger] ids[a] == u && #[trigger] ids[b] == u;
                assert(items[a] == items[b]);
                assert(items[a] == Ok::<usize, ErrorView>(u));
            }
        }
        if cpu_dirs_hold(sys, online.cpus) {
            assert forall|k: int| 0 <= k < items.len() implies (#[trigger] items[k] matches Ok(u)
                && (facts.online.cpus.contains(u) ==> facts.of(u).core_id is Some)) by {
                assert(ids.contains(ids[k]));
                let i = choose|i: int| 0 <= i < read.len() && read[i] == ids[k];
                assert(sysfs::cpu_dir_id(dirs[i].path@) == Some(ids[k]));
            }
            assert forall|a: int, b: int|
                0 <= a < b < items.len() && #[trigger] items[a] == #[trigger] items[b]
                    implies !facts.online.cpus.contains(items[a]->Ok_0) by {
                let u = ids[a];
                assert(ids[b] == u);
                lemma_twice(read, u);
                lemma_twice(ids, u);
                let (i, j) = choose|i: int, j: int|
                    0 <= i < j < read.len() && #[trigger] read[i] == u && #[trigger] read[j] == u;
                assert(sysfs::cpu_dir_id(dirs[i].path@) == sysfs::cpu_dir_id(dirs[j].path@));
            }
        }
    }
}

/// Directories of CPUs alone can all be read.
proof fn lemma_dirs_read(dirs: Seq<CpuDir>)
    requires
        forall|i: int| 0 <= i < dirs.len() ==> sysfs::cpu_dir_id(#[trigger] dirs[i].path@) is Some,
    ensures
        sysfs::dir_ids(dirs) is Ok,
    decreases dirs.len(),
{
    if dirs.len() > 0 {
        let head = dirs.drop_last();
        assert forall|i: int| 0 <= i < head.len() implies sysfs::cpu_dir_id(
            #[trigger] head[i].path@,
        ) is Some by {
            assert(head[i] == dirs[i]);
            assert(sysfs::cpu_dir_id(dirs[i].path@) is Some);
        }
        lemma_dirs_read(head);
        assert(sysfs::cpu_dir_id(dirs[dirs.len() - 1].path@) is Some);
    }
}

/// Nodes can be made exactly where sysfs lists the CPUs in a way that they can be made from.
pub proof fn law_nodes_are_owed(sys: Sysfs, flattened: bool, online: CpumaskView)
    ensures
        topology::nodes_of(sys, online, flattened).error is None <==> listing_holds(
            sys,
            flattened,
            online.cpus,
        ),
{
    if !flattened && sys.has_node_dir {
        let dirs = sys.node_dirs@;
        refusals::law_numa_nodes_succeed(sys, dirs, online);
        assert forall|i: int| 0 <= i < dirs.len() implies refusals::numa_dir_fits(
            sys,
            online,
            #[trigger] dirs[i],
        ) == dir_holds(sys, online.cpus, dirs[i]) by {
            let items = builder::node_items(dirs[i]);
            lemma_paths(sys, online, dirs[i], dirs[i].cpu_paths@.len() as int);
            assert(items.take(items.len() as int) == items);
        }
        if listing_holds(sys, flattened, online.cpus) {
            assert forall|i: int| 0 <= i < dirs.len() implies refusals::numa_dir_fits(
                sys,
                online,
                #[trigger] dirs[i],
            ) by {
                assert(dir_holds(sys, online.cpus, dirs[i]));
            }
        }
        if forall|i: int|
            0 <= i < dirs.len() ==> refusals::numa_dir_fits(sys, online, #[trigger] dirs[i]) {
            assert forall|i: int| 0 <= i < dirs.len() implies dir_holds(
                sys,
                online.cpus,
                #[trigger] dirs[i],
            ) by {
                assert(refusals::numa_dir_fits(sys, online, dirs[i]));
            }
        }
    } else {
        refusals::law_default_node_succeeds(sys, online, flattened);
        lemma_cpu_dirs(sys, online, flattened);
    }
}

/// No core of a sound node is in two LLCs exactly where CPUs of one core share an LLC.
proof fn lemma_cores_apart(node: NodeView, ctx: TopoCtxView, facts: Facts, n: usize)
    requires
        node.sound(facts, n),
        ctx.names(node),
        ctx.sound(),
    ensures
        refusals::cores_apart(node) <==> forall|u: usize, v: usize| #[trigger]
            node.span.cpus.contains(u) && #[trigger] node.span.cpus.contains(v) && facts.of(
                u,
            ).core_id == facts.of(v).core_id ==> facts.llc_kernel_id(u) == facts.llc_kernel_id(v),
{
    if refusals::cores_apart(node) {
        assert forall|u: usize, v: usize| #[trigger]
            node.span.cpus.contains(u) && #[trigger] node.span.cpus.contains(v) && facts.of(
                u,
            ).core_id == facts.of(v).core_id implies facts.llc_kernel_id(u)
            == facts.llc_kernel_id(v) by {
            let (l, c) = soundness::lemma_spanned_cpu(node, facts, n, u);
            let (k, d) = soundness::lemma_spanned_cpu(node, facts, n, v);
            lemma_at(node, ctx, facts, n, l, c, u);
            lemma_at(node, ctx, facts, n, k, d, v);
            assert(node.has_core(l, c) && node.has_core(k, d));
        }
    }
    if forall|u: usize, v: usize| #[trigger]
        node.span.cpus.contains(u) && #[trigger] node.span.cpus.contains(v) && facts.of(u).core_id
            == facts.of(v).core_id ==> facts.llc_kernel_id(u) == facts.llc_kernel_id(v) {
        assert forall|l: usize, k: usize, c: usize| #[trigger]
            node.has_core(l, c) && #[trigger] node.has_core(k, c) implies l == k by {
            let u = lemma_some_cpu(node, facts, n, l, c);
            let v = lemma_some_cpu(node, facts, n, k, c);
            lemma_at(node, ctx, facts, n, l, c, u);
            lemma_at(node, ctx, facts, n, k, c, v);
            soundness::lemma_cpu_is_spanned(node, facts, n, l, c, u);
            soundness::lemma_cpu_is_spanned(node, facts, n, k, c, v);
        }
    }
}

/// A CPU in a sound node is where its kernel IDs put it.
proof fn lemma_at(
    node: NodeView,
    ctx: TopoCtxView,
    facts: Facts,
    n: usize,
    l: usize,
    c: usize,
    u: usize,
)
    requires
        node.sound(facts, n),
        ctx.names(node),
        node.has_cpu(l, c, u),
    ensures
        facts.online.cpus.contains(u),
        facts.of(u).core_id is Some,
        ctx.cores.contains_key((n, facts.of(u).core_id.unwrap())),
        ctx.cores[(n, facts.of(u).core_id.unwrap())] == c,
        ctx.llcs.contains_key((n, facts.llc_kernel_id(u))),
        ctx.llcs[(n, facts.llc_kernel_id(u))] == l,
{
    let llc = node.llcs[l];
    assert(llc.sound(facts, l, n));
    let core = llc.cores[c];
    assert(core.sound(facts, c, l, llc.kernel_id, n));
    assert(core.cpus.contains_key(u));
    assert(node.llcs.contains_key(l) && llc.cores.contains_key(c));
}

/// A core of a sound node has a CPU.
proof fn lemma_some_cpu(node: NodeView, facts: Facts, n: usize, l: usize, c: usize) -> (u: usize)
    requires
        node.sound(facts, n),
        node.has_core(l, c),
    ensures
        node.has_cpu(l, c, u),
{
    let llc = node.llcs[l];
    assert(llc.sound(facts, l, n));
    let core = llc.cores[c];
    assert(core.sound(facts, c, l, llc.kernel_id, n));
    choose|u: usize| #[trigger]
        core.cpus.contains_key(u) && facts.core_type(u) == core.core_type
}

/// A topology of a host whose online CPUs are known is owed exactly where sysfs lists its
/// CPUs in a way that nodes can be made from, no online CPU is listed for two nodes and the
/// online CPUs of a core share an L3 cache. Flattened, the caches do not matter.
pub proof fn law_topology_is_owed(sys: Sysfs, flattened: bool, online: CpumaskView)
    requires
        sysfs::online_cpus(online_text(sys), sys.nr_cpu_ids) == Ok::<_, ErrorView>(
            online,
        ),
        topology::nodes_of(sys, online, flattened).ctx.countable(),
    ensures
        topology::built(sys, flattened) is Ok <==> {
            &&& listing_holds(sys, flattened, online.cpus)
            &&& nodes_disjoint(sys, flattened, online.cpus)
            &&& flattened || cores_share_caches(sys, flattened, online.cpus)
        },
{
    law_nodes_are_owed(sys, flattened, online);
    let made = topology::nodes_of(sys, online, flattened);
    if made.error is None {
        let facts = builder::facts_of(sys, online, flattened);
        let nodes = made.nodes;
        soundness::lemma_nodes(sys, online, flattened);
        refusals::law_host_assembly_succeeds(online, nodes, made.ctx, facts);
        lemma_disjoint(sys, flattened, online);
        lemma_share(sys, flattened, online);
        if flattened {
            soundness::lemma_default(sys, online, true);
            soundness::lemma_flattened(sys, online);
            assert forall|n: usize| #[trigger]
                nodes.contains_key(n) implies refusals::cores_apart(nodes[n]) by {
                assert(nodes.dom().contains(n));
                assert forall|l: usize, m: usize, c: usize| #[trigger]
                    nodes[n].has_core(l, c) && #[trigger] nodes[n].has_core(m, c) implies l
                    == m by {
                    assert(nodes[0].llcs.contains_key(l) && nodes[0].llcs.contains_key(m));
                }
            }
        }
    }
}

proof fn lemma_disjoint(sys: Sysfs, flattened: bool, online: CpumaskView)
    requires
        topology::nodes_of(sys, online, flattened).error is None,
        topology::nodes_of(sys, online, flattened).ctx.countable(),
    ensures
        refusals::nodes_apart(topology::nodes_of(sys, online, flattened).nodes) <==> nodes_disjoint(
            sys,
            flattened,
            online.cpus,
        ),
{
    let nodes = topology::nodes_of(sys, online, flattened).nodes;
    if refusals::nodes_apart(nodes) {
        assert forall|n: usize, m: usize, u: usize|
            online.cpus.contains(u) && #[trigger] laws::lists_at(sys, flattened, n, u)
                && #[trigger] laws::lists_at(sys, flattened, m, u) implies n == m by {
            laws::lemma_made_spans(sys, flattened, online, n, u);
            laws::lemma_made_spans(sys, flattened, online, m, u);
            assert(nodes[n].span.cpus.contains(u) && nodes[m].span.cpus.contains(u));
        }
    }
    if nodes_disjoint(sys, flattened, online.cpus) {
        assert forall|n: usize, m: usize, u: usize|
            #![trigger nodes[n].span.cpus.contains(u), nodes[m].span.cpus.contains(u)]
            nodes.contains_key(n) && nodes.contains_key(m) && nodes[n].span.cpus.contains(u)
                && nodes[m].span.cpus.contains(u) implies n == m by {
            laws::lemma_made_spans(sys, flattened, online, n, u);
            laws::lemma_made_spans(sys, flattened, online, m, u);
        }
    }
}

proof fn lemma_share(sys: Sysfs, flattened: bool, online: CpumaskView)
    requires
        topology::nodes_of(sys, online, flattened).error is None,
        topology::nodes_of(sys, online, flattened).ctx.countable(),
    ensures
        !flattened ==> ((forall|n: usize| #[trigger]
            topology::nodes_of(sys, online, flattened).nodes.contains_key(n)
                ==> refusals::cores_apart(topology::nodes_of(sys, online, flattened).nodes[n]))
            <==> cores_share_caches(sys, flattened, online.cpus)),
{
    let made = topology::nodes_of(sys, online, flattened);
    let nodes = made.nodes;
    let facts = builder::facts_of(sys, online, flattened);
    soundness::lemma_nodes(sys, online, flattened);
    if !flattened {
        if forall|n: usize| #[trigger]
            nodes.contains_key(n) ==> refusals::cores_apart(nodes[n]) {
            assert forall|n: usize, u: usize, v: usize|
                online.cpus.contains(u) && online.cpus.contains(v) && #[trigger] laws::lists_at(
                    sys,
                    flattened,
                    n,
                    u,
                ) && #[trigger] laws::lists_at(sys, flattened, n, v) && sys.cpus@[u].core_id
                    == sys.cpus@[v].core_id implies host::or_zero(sys.cpus@[u].l3_id)
                == host::or_zero(sys.cpus@[v].l3_id) by {
                laws::lemma_made_spans(sys, flattened, online, n, u);
                laws::lemma_made_spans(sys, flattened, online, n, v);
                assert(refusals::cores_apart(nodes[n]));
                lemma_cores_apart(nodes[n], made.ctx, facts, n);
                lemma_spanned_known(nodes[n], made.ctx, facts, n, u);
                lemma_spanned_known(nodes[n], made.ctx, facts, n, v);
                assert(nodes[n].span.cpus.contains(u) && nodes[n].span.cpus.contains(v));
            }
        }
        if cores_share_caches(sys, flattened, online.cpus) {
            assert forall|n: usize| #[trigger]
                nodes.contains_key(n) implies refusals::cores_apart(nodes[n]) by {
                let node = nodes[n];
                lemma_cores_apart(node, made.ctx, facts, n);
                assert forall|u: usize, v: usize| #[trigger]
                    node.span.cpus.contains(u) && #[trigger] node.span.cpus.contains(v)
                    && facts.of(u).core_id == facts.of(v).core_id implies facts.llc_kernel_id(u)
                    == facts.llc_kernel_id(v) by {
                    laws::lemma_made_spans(sys, flattened, online, n, u);
                    laws::lemma_made_spans(sys, flattened, online, n, v);
                    lemma_spanned_known(node, made.ctx, facts, n, u);
                    lemma_spanned_known(node, made.ctx, facts, n, v);
                }
            }
        }
    }
}

/// The core of a CPU that a sound node spans is known.
proof fn lemma_spanned_known(node: NodeView, ctx: TopoCtxView, facts: Facts, n: usize, u: usize)
    requires
        node.sound(facts, n),
        ctx.names(node),
        node.span.cpus.contains(u),
    ensures
        facts.of(u).core_id is Some,
        facts.attrs.contains_key(u),
{
    let (l, c) = soundness::lemma_spanned_cpu(node, facts, n, u);
    lemma_at(node, ctx, facts, n, l, c, u);
}

/// What is wrong with the item `k`, before which nothing is: it is no CPU, its core is not
/// known, or it came up before.
spec fn item_fault(
    n: usize,
    facts: Facts,
    items: Seq<Result<usize, ErrorView>>,
    k: int,
    error: ErrorView,
) -> bool {
    &&& 0 <= k < items.len()
    &&& refusals::insertable(facts, items.take(k))
    &&& match items[k] {
        Err(e) => error == e,
        Ok(u) => {
            &&& facts.online.cpus.contains(u)
            &&& if facts.of(u).core_id is None {
                error == (ErrorView::CoreIdUnreadable { cpu: u })
            } else {
                items.take(k).contains(items[k]) && error == (ErrorView::NodeHasCpu {
                    node: n,
                    cpu: u,
                })
            }
        },
    }
}

/// Filling a node fails at the first item that something is wrong with.
proof fn lemma_fill_error(
    start: Build,
    facts: Facts,
    items: Seq<Result<usize, ErrorView>>,
    error: ErrorView,
) -> (k: int)
    requires
        start.node.span.cpus == Set::<usize>::empty(),
        start.ctx.finite(),
        start.filled(facts, items).1 == Some(error),
    ensures
        item_fault(start.node.id, facts, items, k, error),
    decreases items.len(),
{
    let head = items.drop_last();
    let last = items.len() - 1;
    let (build, failed) = start.filled(facts, head);
    if failed is Some {
        let k = lemma_fill_error(start, facts, head, error);
        assert(items.take(k) == head.take(k));
        assert(items[k] == head[k]);
        k
    } else {
        refusals::law_fill_succeeds(start, facts, head);
        soundness::lemma_filled_grows(start, facts, head);
        assert(items.take(last) == head);
        assert(build.node.span.cpus =~= soundness::online_items(facts, head));
        assert(items[last] == items.last());
        last
    }
}

/// What is wrong with the path `j` in the directory of the NUMA node `n`, before which
/// nothing is: it is that of no CPU, or of an online CPU whose core is not known or that
/// came up before.
pub open spec fn path_fault(
    sys: Sysfs,
    online: Set<usize>,
    dir: NodeDir,
    n: usize,
    j: int,
    error: ErrorView,
) -> bool {
    &&& 0 <= j < dir.cpu_paths@.len()
    &&& paths_hold(sys, online, dir, j)
    &&& match sysfs::node_cpu_id(dir.cpu_paths@[j]@) {
        None => error == (ErrorView::ParseCpuId { path: text::trimmed(dir.cpu_paths@[j]@) }),
        Some(u) => {
            &&& online.contains(u)
            &&& if !core_known(sys, u) {
                error == (ErrorView::CoreIdUnreadable { cpu: u })
            } else {
                &&& error == (ErrorView::NodeHasCpu { node: n, cpu: u })
                &&& exists|i: int|
                    0 <= i < j && sysfs::node_cpu_id((#[trigger] dir.cpu_paths@[i])@) == Some(u)
            }
        },
    }
}

/// What is wrong with the directory `i` of a NUMA node, before which nothing is: it is that
/// of no node, or something is wrong with a path in it.
pub open spec fn dir_fault(
    sys: Sysfs,
    online: Set<usize>,
    dirs: Seq<NodeDir>,
    i: int,
    error: ErrorView,
) -> bool {
    &&& 0 <= i < dirs.len()
    &&& forall|k: int| 0 <= k < i ==> dir_holds(sys, online, #[trigger] dirs[k])
    &&& match sysfs::node_dir_id(dirs[i].path@) {
        None => error == (ErrorView::ParseNodeId { path: text::trimmed(dirs[i].path@) }),
        Some(n) => exists|j: int| #[trigger] path_fault(sys, online, dirs[i], n, j, error),
    }
}

/// Making NUMA nodes fails at the first directory that something is wrong with.
proof fn lemma_numa_fault(
    sys: Sysfs,
    dirs: Seq<NodeDir>,
    online: CpumaskView,
    error: ErrorView,
) -> (i: int)
    requires
        builder::numa_nodes(sys, dirs, online, TopoCtxView::none()).error == Some(error),
    ensures
        dir_fault(sys, online.cpus, dirs, i, error),
    decreases dirs.len(),
{
    let head = dirs.drop_last();
    let last = dirs.len() - 1;
    let made = builder::numa_nodes(sys, head, online, TopoCtxView::none());
    assert forall|k: int| 0 <= k < head.len() implies head[k] == #[trigger] dirs[k] by {}
    if made.error is Some {
        let i = lemma_numa_fault(sys, head, online, error);
        assert forall|k: int| 0 <= k < i implies dir_holds(
            sys,
            online.cpus,
            #[trigger] dirs[k],
        ) by {
            assert(dir_holds(sys, online.cpus, head[k]));
        }
        assert(head[i] == dirs[i]);
        i
    } else {
        let facts = builder::facts_of(sys, online, false);
        let dir = dirs.last();
        refusals::law_numa_nodes_succeed(sys, head, online);
        assert forall|k: int| 0 <= k < last implies dir_holds(
            sys,
            online.cpus,
            #[trigger] dirs[k],
        ) by {
            assert(refusals::numa_dir_fits(sys, online, head[k]));
            let items = builder::node_items(head[k]);
            lemma_paths(sys, online, head[k], head[k].cpu_paths@.len() as int);
            assert(items.take(items.len() as int) == items);
        }
        match sysfs::node_dir_id(dir.path@) {
            None => {},
            Some(n) => {
                let node = builder::empty_node(
                    n,
                    online.nr_cpu_ids,
                    builder::gpus_of_node(sys.gpus@, n),
                );
                let items = builder::node_items(dir);
                soundness::lemma_numa_finite(sys, head, online, TopoCtxView::none());
                let start = Build { node, ctx: made.ctx };
                let j = lemma_fill_error(start, facts, items, error);
                lemma_paths(sys, online, dir, j);
                assert(items[j] == builder::node_item(dir.cpu_paths@[j]@));
                if items[j] is Ok && items.take(j).contains(items[j]) {
                    let i = choose|i: int| 0 <= i < j && items.take(j)[i] == items[j];
                    assert(items[i] == builder::node_item(dir.cpu_paths@[i]@));
                    assert(sysfs::node_cpu_id(dir.cpu_paths@[i]@) == Some(items[j]->Ok_0));
                }
                assert(path_fault(sys, online.cpus, dir, n, j, error));
            },
        }
        last
    }
}

/// Whether two directories are those of the CPU `u`.
pub open spec fn has_two_dirs(sys: Sysfs, u: usize) -> bool {
    exists|i: int, j: int|
        0 <= i < j < sys.cpu_dirs@.len() && sysfs::cpu_dir_id(#[trigger] sys.cpu_dirs@[i].path@)
            == Some(u) && sysfs::cpu_dir_id(#[trigger] sys.cpu_dirs@[j].path@) == Some(u)
}

/// What is wrong with the directory of all CPUs: it is not there, one in it is that of no
/// CPU, or the core of an online CPU is not known or the CPU has two directories. Nothing is
/// wrong with lower CPUs.
pub open spec fn cpu_dirs_fault(sys: Sysfs, online: Set<usize>, error: ErrorView) -> bool {
    let dirs = sys.cpu_dirs@;
    if !sys.has_cpu_dir {
        error == ErrorView::NoCpuDirectory
    } else {
        ||| exists|i: int|
            {
                &&& 0 <= i < dirs.len()
                &&& sysfs::cpu_dir_id(#[trigger] dirs[i].path@) is None
                &&& error == (ErrorView::ParseCpuId { path: text::trimmed(dirs[i].path@) })
                &&& forall|k: int|
                    0 <= k < i ==> sysfs::cpu_dir_id(#[trigger] dirs[k].path@) is Some
            }
        ||| {
            &&& forall|k: int|
                0 <= k < dirs.len() ==> sysfs::cpu_dir_id(#[trigger] dirs[k].path@) is Some
            &&& exists|u: usize| #[trigger] cpu_fault(sys, online, u, error)
        }
    }
}

/// What is wrong with the CPU `u`, below which nothing is.
pub open spec fn cpu_fault(sys: Sysfs, online: Set<usize>, u: usize, error: ErrorView) -> bool {
    &&& online.contains(u)
    &&& laws::has_cpu_dir(sys, u)
    &&& if !core_known(sys, u) {
        error == (ErrorView::CoreIdUnreadable { cpu: u })
    } else {
        has_two_dirs(sys, u) && error == (ErrorView::NodeHasCpu { node: 0, cpu: u })
    }
    &&& forall|v: usize|
        v < u && online.contains(v) && #[trigger] laws::has_cpu_dir(sys, v) ==> core_known(sys, v)
            && !has_two_dirs(sys, v)
}

/// Reading the IDs of CPUs fails at the first directory that is that of no CPU.
pub proof fn law_cpu_ids_error(dirs: Seq<CpuDir>, error: ErrorView)
    requires
        sysfs::cpu_ids(dirs) == Err::<Seq<usize>, _>(error),
    ensures
        exists|i: int|
            {
                &&& 0 <= i < dirs.len()
                &&& sysfs::cpu_dir_id(#[trigger] dirs[i].path@) is None
                &&& error == (ErrorView::ParseCpuId { path: text::trimmed(dirs[i].path@) })
                &&& forall|k: int|
                    0 <= k < i ==> sysfs::cpu_dir_id(#[trigger] dirs[k].path@) is Some
            },
{
    let i = lemma_dirs_error(dirs, error);
    assert(sysfs::cpu_dir_id(dirs[i].path@) is None);
}

proof fn lemma_dirs_error(dirs: Seq<CpuDir>, error: ErrorView) -> (i: int)
    requires
        sysfs::dir_ids(dirs) == Err::<Seq<usize>, _>(error),
    ensures
        0 <= i < dirs.len(),
        sysfs::cpu_dir_id(dirs[i].path@) is None,
        error == (ErrorView::ParseCpuId { path: text::trimmed(dirs[i].path@) }),
        forall|k: int| 0 <= k < i ==> sysfs::cpu_dir_id(#[trigger] dirs[k].path@) is Some,
    decreases dirs.len(),
{
    let head = dirs.drop_last();
    let last = dirs.len() - 1;
    if sysfs::dir_ids(head) is Err {
        let i = lemma_dirs_error(head, error);
        assert(head[i] == dirs[i]);
        assert forall|k: int| 0 <= k < i implies sysfs::cpu_dir_id(
            #[trigger] dirs[k].path@,
        ) is Some by {
            assert(head[k] == dirs[k]);
            assert(sysfs::cpu_dir_id(head[k].path@) is Some);
        }
        i
    } else {
        laws::lemma_dir_ids(head, sysfs::dir_ids(head)->Ok_0);
        assert forall|k: int| 0 <= k < last implies sysfs::cpu_dir_id(
            #[trigger] dirs[k].path@,
        ) is Some by {
            assert(head[k] == dirs[k]);
            assert(sysfs::cpu_dir_id(head[k].path@) is Some);
        }
        assert(dirs[last] == dirs.last());
        last
    }
}

/// Making the default node fails for what is wrong with the directory of all CPUs.
proof fn lemma_default_fault(sys: Sysfs, online: CpumaskView, flattened: bool, error: ErrorView)
    requires
        builder::default_node(sys, online, TopoCtxView::none(), flattened).error == Some(error),
    ensures
        cpu_dirs_fault(sys, online.cpus, error),
{
    broadcast use vstd::seq_lib::group_to_multiset_ensures;

    let dirs = sys.cpu_dirs@;
    if sys.has_cpu_dir {
        match sysfs::cpu_ids(dirs) {
            Err(e) => {
                let i = lemma_dirs_error(dirs, error);
                assert(sysfs::cpu_dir_id(dirs[i].path@) is None);
            },
            Ok(ids) => {
                let facts = builder::facts_of(sys, online, flattened);
                let items = builder::ids_as_items(ids);
                let node = builder::empty_node(
                    0,
                    online.nr_cpu_ids,
                    builder::gpus_of_node(sys.gpus@, 0),
                );
                let start = Build { node, ctx: TopoCtxView::none() };
                let k = lemma_fill_error(start, facts, items, error);
                let u = ids[k];
                let read = dirs.map_values(|dir: CpuDir| sysfs::cpu_dir_id(dir.path@).unwrap());
                laws::law_cpu_ids(dirs, ids);
                assert(items[k] == Ok::<usize, ErrorView>(u));
                assert forall|v: usize| #[trigger] laws::has_cpu_dir(sys, v) == ids.contains(
                    v,
                ) by {
                    lemma_listed_id(sys, ids, v);
                }
                assert forall|v: usize| #[trigger] has_two_dirs(sys, v) <==> exists|i: int, j: int|
                    0 <= i < j < ids.len() && #[trigger] ids[i] == v && #[trigger] ids[j] == v by {
                    lemma_two_dirs(sys, ids, v);
                }
                assert(ids.contains(u));
                if facts.of(u).core_id is Some {
                    let i = choose|i: int| 0 <= i < k && items.take(k)[i] == items[k];
                    assert(ids[i] == u && ids[k] == u);
                    assert(has_two_dirs(sys, u));
                }
                assert forall|v: usize|
                    v < u && online.cpus.contains(v) && #[trigger] laws::has_cpu_dir(
                        sys,
                        v,
                    ) implies core_known(sys, v) && !has_two_dirs(sys, v) by {
                    let i = choose|i: int| 0 <= i < ids.len() && ids[i] == v;
                    assert(i < k) by {
                        if i >= k {
                            assert(ids[k] <= ids[i]);
                        }
                    }
                    assert(items.take(k)[i] == Ok::<usize, ErrorView>(v));
                    if has_two_dirs(sys, v) {
                        let (a, b) = choose|a: int, b: int|
                            0 <= a < b < ids.len() && #[trigger] ids[a] == v && #[trigger] ids[b]
                                == v;
                        assert(b < k) by {
                            if b >= k {
                                assert(ids[k] <= ids[b]);
                            }
                        }
                        assert(items.take(k)[a] == items.take(k)[b]);
                    }
                }
                assert(cpu_fault(sys, online.cpus, u, error));
            },
        }
    }
}

proof fn lemma_listed_id(sys: Sysfs, ids: Seq<usize>, v: usize)
    requires
        sysfs::cpu_ids(sys.cpu_dirs@) == Ok::<_, ErrorView>(ids),
    ensures
        laws::has_cpu_dir(sys, v) == ids.contains(v),
{
    broadcast use vstd::seq_lib::group_to_multiset_ensures;

    let dirs = sys.cpu_dirs@;
    let read = dirs.map_values(|dir: CpuDir| sysfs::cpu_dir_id(dir.path@).unwrap());
    laws::law_cpu_ids(dirs, ids);
    assert(ids.contains(v) <==> ids.to_multiset().count(v) > 0);
    assert(read.contains(v) <==> read.to_multiset().count(v) > 0);
    if laws::has_cpu_dir(sys, v) {
        let i = choose|i: int|
            0 <= i < dirs.len() && sysfs::cpu_dir_id(#[trigger] dirs[i].path@) == Some(v);
        assert(read[i] == v);
    }
    if read.contains(v) {
        let i = choose|i: int| 0 <= i < read.len() && read[i] == v;
        assert(sysfs::cpu_dir_id(dirs[i].path@) is Some);
        assert(sysfs::cpu_dir_id(dirs[i].path@) == Some(v));
    }
}

proof fn lemma_two_dirs(sys: Sysfs, ids: Seq<usize>, v: usize)
    requires
        sysfs::cpu_ids(sys.cpu_dirs@) == Ok::<_, ErrorView>(ids),
    ensures
        has_two_dirs(sys, v) <==> exists|i: int, j: int|
            0 <= i < j < ids.len() && #[trigger] ids[i] == v && #[trigger] ids[j] == v,
{
    let dirs = sys.cpu_dirs@;
    let read = dirs.map_values(|dir: CpuDir| sysfs::cpu_dir_id(dir.path@).unwrap());
    laws::law_cpu_ids(dirs, ids);
    lemma_twice(ids, v);
    lemma_twice(read, v);
    if has_two_dirs(sys, v) {
        let (i, j) = choose|i: int, j: int|
            0 <= i < j < dirs.len() && sysfs::cpu_dir_id(#[trigger] dirs[i].path@) == Some(v)
                && sysfs::cpu_dir_id(#[trigger] dirs[j].path@) == Some(v);
        assert(read[i] == v && read[j] == v);
    }
    if exists|i: int, j: int|
        0 <= i < j < read.len() && #[trigger] read[i] == v && #[trigger] read[j] == v {
        let (i, j) = choose|i: int, j: int|
            0 <= i < j < read.len() && #[trigger] read[i] == v && #[trigger] read[j] == v;
        assert(sysfs::cpu_dir_id(dirs[i].path@) is Some);
        assert(sysfs::cpu_dir_id(dirs[j].path@) is Some);
    }
}

/// Whether `m` is at one place of `s` at most.
spec fn once(s: Seq<Member>, m: Member) -> bool {
    forall|i: int, j: int|
        0 <= i < s.len() && 0 <= j < s.len() && #[trigger] s[i] == m && #[trigger] s[j] == m ==> i
            == j
}

proof fn lemma_chain_once(keys: Seq<usize>, part: spec_fn(usize) -> Seq<Member>, m: Member)
    requires
        forall|i: int| 0 <= i < keys.len() ==> once(part(#[trigger] keys[i]), m),
        forall|i: int, j: int|
            0 <= i < keys.len() && 0 <= j < keys.len() && part(#[trigger] keys[i]).contains(m)
                && part(#[trigger] keys[j]).contains(m) ==> i == j,
    ensures
        once(topology::chain(keys, part), m),
    decreases keys.len(),
{
    if keys.len() > 0 {
        let head = keys.drop_last();
        let whole = topology::chain(keys, part);
        let a = topology::chain(head, part);
        let b = part(keys.last());
        assert forall|i: int| 0 <= i < head.len() implies once(part(#[trigger] head[i]), m) by {
            assert(once(part(keys[i]), m));
        }
        assert forall|i: int, j: int|
            0 <= i < head.len() && 0 <= j < head.len() && part(#[trigger] head[i]).contains(m)
                && part(#[trigger] head[j]).contains(m) implies i == j by {
            assert(part(keys[i]).contains(m) && part(keys[j]).contains(m));
        }
        lemma_chain_once(head, part, m);
        indices::lemma_chain(head, part);
        assert(once(part(keys[keys.len() - 1]), m));
        assert(!(a.contains(m) && b.contains(m))) by {
            if a.contains(m) && b.contains(m) {
                let i = choose|i: int| 0 <= i < head.len() && part(#[trigger] head[i]).contains(m);
                assert(part(keys[i]).contains(m));
                assert(part(keys[keys.len() - 1]).contains(m));
            }
        }
        assert forall|i: int, j: int|
            0 <= i < whole.len() && 0 <= j < whole.len() && #[trigger] whole[i] == m
                && #[trigger] whole[j] == m implies i == j by {
            if i < a.len() {
                assert(a[i] == m);
            } else {
                assert(b[i - a.len()] == m);
            }
            if j < a.len() {
                assert(a[j] == m);
            } else {
                assert(b[j - a.len()] == m);
            }
            assert(i < a.len() ==> a.contains(m));
            assert(j < a.len() ==> a.contains(m));
            assert(i >= a.len() ==> b.contains(m));
            assert(j >= a.len() ==> b.contains(m));
        }
    }
}

proof fn lemma_chain_once_over(set: Set<usize>, part: spec_fn(usize) -> Seq<Member>, m: Member)
    requires
        set.finite(),
        forall|k: usize| set.contains(k) ==> once(#[trigger] part(k), m),
        forall|j: usize, k: usize|
            set.contains(j) && set.contains(k) && (#[trigger] part(j)).contains(m) && (
            #[trigger] part(k)).contains(m) ==> j == k,
    ensures
        once(topology::chain(order::sorted(set), part), m),
        topology::chain(order::sorted(set), part).contains(m) ==> exists|k: usize|
            set.contains(k) && (#[trigger] part(k)).contains(m),
{
    let keys = order::sorted(set);
    order::lemma_sorted(set);
    assert forall|i: int| 0 <= i < keys.len() implies set.contains(#[trigger] keys[i]) by {
        assert(keys.contains(keys[i]));
    }
    assert forall|i: int| 0 <= i < keys.len() implies once(part(#[trigger] keys[i]), m) by {
        assert(set.contains(keys[i]));
    }
    assert forall|i: int, j: int|
        0 <= i < keys.len() && 0 <= j < keys.len() && part(#[trigger] keys[i]).contains(m) && part(
            #[trigger] keys[j],
        ).contains(m) implies i == j by {
        assert(set.contains(keys[i]) && set.contains(keys[j]));
        assert(keys[i] == keys[j]);
    }
    lemma_chain_once(keys, part, m);
    indices::lemma_chain(keys, part);
    if topology::chain(keys, part).contains(m) {
        let i = choose|i: int| 0 <= i < keys.len() && part(#[trigger] keys[i]).contains(m);
        assert(set.contains(keys[i]));
    }
}

/// Whether the LLC `l` has the member.
spec fn llc_has(llc: LlcView, l: usize, m: Member) -> bool {
    match m {
        Member::Llc(k) => k == l,
        Member::Core(c) => llc.cores.contains_key(c),
        Member::Cpu(u) => exists|c: usize| llc.has_cpu(c, u),
    }
}

proof fn lemma_llc_once(llc: LlcView, l: usize, m: Member)
    requires
        llc.finite(),
        m matches Member::Cpu(u) ==> forall|c: usize, d: usize| #[trigger]
            llc.has_cpu(c, u) && #[trigger] llc.has_cpu(d, u) ==> c == d,
    ensures
        once(llc.members(l), m),
        llc.members(l).contains(m) ==> llc_has(llc, l, m),
{
    let set = llc.cores.dom();
    let parts = |c: usize| llc.cores[c].members(c);
    assert forall|c: usize| set.contains(c) implies {
        &&& once(#[trigger] parts(c), m)
        &&& parts(c).contains(m) ==> m == Member::Core(c) || (m matches Member::Cpu(u)
            && llc.has_cpu(c, u))
    } by {
        assert(llc.cores.contains_key(c));
        indices::lemma_core_members(llc.cores[c], c);
        let s = parts(c);
        assert forall|i: int, j: int|
            0 <= i < s.len() && 0 <= j < s.len() && #[trigger] s[i] == m && #[trigger] s[j]
                == m implies i == j by {}
    }
    assert forall|c: usize, d: usize|
        set.contains(c) && set.contains(d) && (#[trigger] parts(c)).contains(m) && (
        #[trigger] parts(d)).contains(m) implies c == d by {
        assert(once(parts(c), m) && once(parts(d), m));
        match m {
            Member::Cpu(u) => {
                assert(llc.has_cpu(c, u) && llc.has_cpu(d, u));
            },
            _ => {},
        }
    }
    lemma_chain_once_over(set, parts, m);
    let inner = topology::chain(order::sorted(set), parts);
    let members = llc.members(l);
    assert(inner.contains(m) ==> llc_has(llc, l, m) && m != Member::Llc(l)) by {
        if inner.contains(m) {
            let c = choose|c: usize| set.contains(c) && (#[trigger] parts(c)).contains(m);
            assert(once(parts(c), m));
            match m {
                Member::Cpu(u) => {
                    assert(llc.has_cpu(c, u));
                },
                _ => {},
            }
        }
    }
    assert forall|i: int| 0 <= i < inner.len() implies members[i] == #[trigger] inner[i] by {}
    assert forall|i: int, j: int|
        0 <= i < members.len() && 0 <= j < members.len() && #[trigger] members[i] == m
            && #[trigger] members[j] == m implies i == j by {
        if i < inner.len() {
            assert(inner[i] == m);
            assert(inner.contains(m));
        }
        if j < inner.len() {
            assert(inner[j] == m);
            assert(inner.contains(m));
        }
    }
    if members.contains(m) {
        let i = choose|i: int| 0 <= i < members.len() && members[i] == m;
        if i < inner.len() {
            assert(inner[i] == m);
        }
    }
}

/// Whether the node has the member.
spec fn node_has(node: NodeView, m: Member) -> bool {
    match m {
        Member::Llc(l) => node.llcs.contains_key(l),
        Member::Core(c) => exists|l: usize| node.has_core(l, c),
        Member::Cpu(u) => exists|l: usize, c: usize| node.has_cpu(l, c, u),
    }
}

proof fn lemma_node_once(node: NodeView, m: Member)
    requires
        node.finite(),
        m matches Member::Core(c) ==> forall|l: usize, k: usize| #[trigger]
            node.has_core(l, c) && #[trigger] node.has_core(k, c) ==> l == k,
        m matches Member::Cpu(u) ==> forall|l: usize, c: usize, k: usize, d: usize| #[trigger]
            node.has_cpu(l, c, u) && #[trigger] node.has_cpu(k, d, u) ==> l == k && c == d,
    ensures
        once(node.members(), m),
        node.members().contains(m) ==> node_has(node, m),
{
    let set = node.llcs.dom();
    let parts = |l: usize| node.llcs[l].members(l);
    assert forall|l: usize| set.contains(l) implies {
        &&& once(#[trigger] parts(l), m)
        &&& parts(l).contains(m) ==> match m {
            Member::Llc(k) => k == l,
            Member::Core(c) => node.has_core(l, c),
            Member::Cpu(u) => exists|c: usize| node.has_cpu(l, c, u),
        }
    } by {
        let llc = node.llcs[l];
        assert(node.llcs.contains_key(l));
        match m {
            Member::Cpu(u) => {
                assert forall|c: usize, d: usize| #[trigger]
                    llc.has_cpu(c, u) && #[trigger] llc.has_cpu(d, u) implies c == d by {
                    assert(node.has_cpu(l, c, u) && node.has_cpu(l, d, u));
                }
                lemma_llc_once(llc, l, m);
                if parts(l).contains(m) {
                    let c = choose|c: usize| llc.has_cpu(c, u);
                    assert(node.has_cpu(l, c, u));
                }
            },
            _ => {
                lemma_llc_once(llc, l, m);
            },
        }
    }
    assert forall|l: usize, k: usize|
        set.contains(l) && set.contains(k) && (#[trigger] parts(l)).contains(m) && (
        #[trigger] parts(k)).contains(m) implies l == k by {
        assert(once(parts(l), m) && once(parts(k), m));
        match m {
            Member::Cpu(u) => {
                let c = choose|c: usize| node.has_cpu(l, c, u);
                let d = choose|d: usize| node.has_cpu(k, d, u);
                assert(node.has_cpu(l, c, u) && node.has_cpu(k, d, u));
            },
            Member::Core(c) => {
                assert(node.has_core(l, c) && node.has_core(k, c));
            },
            _ => {},
        }
    }
    lemma_chain_once_over(set, parts, m);
    assert(node.members() == topology::chain(order::sorted(set), parts));
    if node.members().contains(m) {
        let l = choose|l: usize| set.contains(l) && (#[trigger] parts(l)).contains(m);
        assert(once(parts(l), m));
        match m {
            Member::Cpu(u) => {
                let c = choose|c: usize| node.has_cpu(l, c, u);
                assert(node.has_cpu(l, c, u));
            },
            Member::Core(c) => {
                assert(node.has_core(l, c));
            },
            _ => {},
        }
    }
}

/// Whether the member is in two places of the nodes.
pub open spec fn in_two_places(nodes: Map<usize, NodeView>, m: Member) -> bool {
    match m {
        Member::Llc(l) => exists|n: usize, k: usize| #[trigger]
            refusals::llc_in(nodes, n, l) && #[trigger] refusals::llc_in(nodes, k, l) && n != k,
        Member::Core(c) => exists|n: usize, l: usize, j: usize, k: usize| #[trigger]
            refusals::core_in(nodes, n, l, c) && #[trigger] refusals::core_in(nodes, j, k, c) && (n,
                l) != (j, k),
        Member::Cpu(u) => exists|n: usize, l: usize, c: usize, j: usize, k: usize, d: usize|
            #[trigger]
            refusals::cpu_in(nodes, n, l, c, u) && #[trigger] refusals::cpu_in(nodes, j, k, d, u)
                && (n, l, c) != (j, k, d),
    }
}

/// A clash is true: the LLC is in two nodes, the core in two LLCs or the CPU in two cores.
pub proof fn law_clash_is_true(span: CpumaskView, nodes: Map<usize, NodeView>, error: ErrorView)
    requires
        nodes.dom().finite(),
        forall|n: usize| #[trigger] nodes.contains_key(n) ==> nodes[n].finite(),
        topology::assembled(span, nodes) == Err::<topology::TopologyView, _>(error),
    ensures
        match error {
            ErrorView::DuplicateLlc { id } => in_two_places(nodes, Member::Llc(id)),
            ErrorView::DuplicateCore { id } => in_two_places(nodes, Member::Core(id)),
            ErrorView::DuplicateCpu { id } => in_two_places(nodes, Member::Cpu(id)),
            _ => false,
        },
{
    let members = topology::members_of(nodes);
    let m = topology::first_clash(Set::empty(), members).unwrap();
    indices::law_first_clash(Set::empty(), members);
    let j = choose|j: int|
        {
            &&& 0 <= j < members.len()
            &&& #[trigger] members[j] == m
            &&& Set::<Member>::empty().contains(m) || members.take(j).contains(m)
            &&& topology::first_clash(Set::empty(), members.take(j)) is None
        };
    let i = choose|i: int| 0 <= i < j && members.take(j)[i] == m;
    assert(members[i] == m);
    if !in_two_places(nodes, m) {
        lemma_members_of_once(nodes, m);
        assert(false);
    }
}

proof fn lemma_members_of_once(nodes: Map<usize, NodeView>, m: Member)
    requires
        nodes.dom().finite(),
        forall|n: usize| #[trigger] nodes.contains_key(n) ==> nodes[n].finite(),
        !in_two_places(nodes, m),
    ensures
        once(topology::members_of(nodes), m),
{
    let set = nodes.dom();
    let parts = |n: usize| nodes[n].members();
    assert forall|n: usize| set.contains(n) implies {
        &&& once(#[trigger] parts(n), m)
        &&& parts(n).contains(m) ==> node_has(nodes[n], m)
    } by {
        let node = nodes[n];
        assert(nodes.contains_key(n));
        match m {
            Member::Core(c) => {
                assert forall|l: usize, k: usize| #[trigger]
                    node.has_core(l, c) && #[trigger] node.has_core(k, c) implies l == k by {
                    assert(refusals::core_in(nodes, n, l, c) && refusals::core_in(nodes, n, k, c));
                }
            },
            Member::Cpu(u) => {
                assert forall|l: usize, c: usize, k: usize, d: usize| #[trigger]
                    node.has_cpu(l, c, u) && #[trigger] node.has_cpu(k, d, u) implies l == k && c
                    == d by {
                    assert(refusals::cpu_in(nodes, n, l, c, u));
                    assert(refusals::cpu_in(nodes, n, k, d, u));
                }
            },
            _ => {},
        }
        lemma_node_once(node, m);
    }
    assert forall|n: usize, k: usize|
        set.contains(n) && set.contains(k) && (#[trigger] parts(n)).contains(m) && (
        #[trigger] parts(k)).contains(m) implies n == k by {
        assert(once(parts(n), m) && once(parts(k), m));
        assert(node_has(nodes[n], m) && node_has(nodes[k], m));
        match m {
            Member::Llc(l) => {
                assert(refusals::llc_in(nodes, n, l) && refusals::llc_in(nodes, k, l));
            },
            Member::Core(c) => {
                let a = choose|a: usize| nodes[n].has_core(a, c);
                let b = choose|b: usize| nodes[k].has_core(b, c);
                assert(refusals::core_in(nodes, n, a, c) && refusals::core_in(nodes, k, b, c));
            },
            Member::Cpu(u) => {
                let (a, c) = choose|a: usize, c: usize| nodes[n].has_cpu(a, c, u);
                let (b, d) = choose|b: usize, d: usize| nodes[k].has_cpu(b, d, u);
                assert(refusals::cpu_in(nodes, n, a, c, u));
                assert(refusals::cpu_in(nodes, k, b, d, u));
            },
        }
    }
    lemma_chain_once_over(set, parts, m);
    assert(topology::members_of(nodes) == topology::chain(order::sorted(set), parts));
}

/// What an error says about the host: the online CPUs cannot be read, or else the listing of
/// the CPUs has a fault, or else an online CPU is listed for two nodes or the online CPUs of
/// a core do not share an L3 cache.
pub open spec fn host_fault(sys: Sysfs, flattened: bool, error: ErrorView) -> bool {
    match sysfs::online_cpus(online_text(sys), sys.nr_cpu_ids) {
        Err(e) => error == e,
        Ok(online) => if !listing_holds(sys, flattened, online.cpus) {
            if !flattened && sys.has_node_dir {
                exists|i: int| #[trigger]
                    dir_fault(sys, online.cpus, sys.node_dirs@, i, error)
            } else {
                cpu_dirs_fault(sys, online.cpus, error)
            }
        } else {
            match error {
                ErrorView::DuplicateCpu { id } => {
                    &&& online.cpus.contains(id)
                    &&& exists|n: usize, m: usize| #[trigger]
                        laws::lists_at(sys, flattened, n, id) && #[trigger] laws::lists_at(
                            sys,
                            flattened,
                            m,
                            id,
                        ) && n != m
                },
                ErrorView::DuplicateCore { .. } => {
                    &&& !flattened
                    &&& !cores_share_caches(sys, flattened, online.cpus)
                },
                _ => false,
            }
        },
    }
}

/// Where no topology is owed, the error says what the fault of the host is.
pub proof fn law_error_is_true(sys: Sysfs, flattened: bool, error: ErrorView)
    requires
        topology::built(sys, flattened) == Err::<topology::TopologyView, _>(error),
        sysfs::online_cpus(online_text(sys), sys.nr_cpu_ids) matches Ok(online)
            ==> topology::nodes_of(sys, online, flattened).ctx.countable(),
    ensures
        host_fault(sys, flattened, error),
{
    if sysfs::online_cpus(online_text(sys), sys.nr_cpu_ids) is Ok {
        let online = sysfs::online_cpus(online_text(sys), sys.nr_cpu_ids)->Ok_0;
        let made = topology::nodes_of(sys, online, flattened);
        law_nodes_are_owed(sys, flattened, online);
        if made.error is Some {
            if !flattened && sys.has_node_dir {
                let i = lemma_numa_fault(sys, sys.node_dirs@, online, error);
                assert(dir_fault(sys, online.cpus, sys.node_dirs@, i, error));
            } else {
                lemma_default_fault(sys, online, flattened, error);
            }
        } else {
            lemma_clash_of_host(sys, flattened, online, error);
        }
    }
}

proof fn lemma_clash_of_host(sys: Sysfs, flattened: bool, online: CpumaskView, error: ErrorView)
    requires
        sysfs::online_cpus(online_text(sys), sys.nr_cpu_ids) == Ok::<_, ErrorView>(
            online,
        ),
        topology::built(sys, flattened) == Err::<topology::TopologyView, _>(error),
        topology::nodes_of(sys, online, flattened).error is None,
        topology::nodes_of(sys, online, flattened).ctx.countable(),
    ensures
        host_fault(sys, flattened, error),
{
    let facts = builder::facts_of(sys, online, flattened);
    let made = topology::nodes_of(sys, online, flattened);
    let nodes = made.nodes;
    law_nodes_are_owed(sys, flattened, online);
    law_topology_is_owed(sys, flattened, online);
    soundness::lemma_nodes(sys, online, flattened);
    assert forall|n: usize| #[trigger] nodes.contains_key(n) implies nodes[n].finite() by {
        soundness::lemma_sound_is_finite(nodes[n], facts, n);
    }
    law_clash_is_true(online, nodes, error);
    match error {
        ErrorView::DuplicateLlc { id } => {
            let (n, k) = choose|n: usize, k: usize| #[trigger]
                refusals::llc_in(nodes, n, id) && #[trigger] refusals::llc_in(nodes, k, id) && n
                    != k;
            assert(refusals::llc_in(nodes, n, id) && refusals::llc_in(nodes, k, id));
            assert(made.ctx.names(nodes[n]) && made.ctx.names(nodes[k]));
            assert(made.ctx.llcs.contains_key((n, nodes[n].llcs[id].kernel_id)));
            assert(made.ctx.llcs.contains_key((k, nodes[k].llcs[id].kernel_id)));
        },
        ErrorView::DuplicateCore { id } => {
            let (n, l, j, k) = choose|n: usize, l: usize, j: usize, k: usize| #[trigger]
                refusals::core_in(nodes, n, l, id) && #[trigger] refusals::core_in(nodes, j, k, id)
                    && (n, l) != (j, k);
            assert(refusals::core_in(nodes, n, l, id) && refusals::core_in(nodes, j, k, id));
            let u = lemma_some_cpu(nodes[n], facts, n, l, id);
            let v = lemma_some_cpu(nodes[j], facts, j, k, id);
            lemma_at(nodes[n], made.ctx, facts, n, l, id, u);
            lemma_at(nodes[j], made.ctx, facts, j, k, id, v);
            assert(n == j);
            assert(!refusals::cores_apart(nodes[n])) by {
                assert(nodes[n].has_core(l, id) && nodes[n].has_core(k, id));
            }
            lemma_share(sys, flattened, online);
            if flattened {
                soundness::lemma_default(sys, online, true);
                soundness::lemma_flattened(sys, online);
                assert(nodes.dom().contains(n));
                assert(nodes[0].llcs.contains_key(l) && nodes[0].llcs.contains_key(k));
            }
        },
        ErrorView::DuplicateCpu { id } => {
            let (n, l, c, j, k, d) = choose|
                n: usize,
                l: usize,
                c: usize,
                j: usize,
                k: usize,
                d: usize,
            | #[trigger]
                refusals::cpu_in(nodes, n, l, c, id) && #[trigger] refusals::cpu_in(
                    nodes,
                    j,
                    k,
                    d,
                    id,
                ) && (n, l, c) != (j, k, d);
            assert(refusals::cpu_in(nodes, n, l, c, id) && refusals::cpu_in(nodes, j, k, d, id));
            soundness::lemma_cpu_is_spanned(nodes[n], facts, n, l, c, id);
            soundness::lemma_cpu_is_spanned(nodes[j], facts, j, k, d, id);
            laws::lemma_made_spans(sys, flattened, online, n, id);
            laws::lemma_made_spans(sys, flattened, online, j, id);
            if n == j {
                assert(nodes[n].spans(l, id) && nodes[n].spans(k, id));
                let llc = nodes[n].llcs[l];
                assert(llc.sound(facts, l, n));
                assert(llc.has_cpu(c, id) && llc.has_cpu(d, id));
            }
        },
        _ => {},
    }
}

} // verus!
