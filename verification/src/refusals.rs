//! When a topology can be put together.

use crate::builder;
use crate::builder::{Build, Facts, TopoCtxView};
use crate::cpumask::CpumaskView;
use crate::error::ErrorView;
use crate::hierarchy::{LlcView, NodeView};
use crate::indices;
use crate::order;
use crate::soundness;
use crate::sysfs;
use crate::sysfs::{NodeDir, Sysfs};
use crate::topology;
use crate::topology::Member;
use vstd::prelude::*;

verus! {

/// A chain holds nothing twice where its parts do not and share nothing.
proof fn lemma_chain_distinct(keys: Seq<usize>, part: spec_fn(usize) -> Seq<Member>)
    requires
        forall|i: int| 0 <= i < keys.len() ==> part(#[trigger] keys[i]).no_duplicates(),
        forall|i: int, j: int, m: Member|
            0 <= i < keys.len() && 0 <= j < keys.len() && #[trigger] part(keys[i]).contains(m)
                && #[trigger] part(keys[j]).contains(m) ==> i == j,
    ensures
        topology::chain(keys, part).no_duplicates(),
    decreases keys.len(),
{
    if keys.len() > 0 {
        let head = keys.drop_last();
        let whole = topology::chain(keys, part);
        let a = topology::chain(head, part);
        let b = part(keys.last());
        assert forall|i: int| 0 <= i < head.len() implies part(
            #[trigger] head[i],
        ).no_duplicates() by {
            assert(part(keys[i]).no_duplicates());
        }
        assert forall|i: int, j: int, m: Member|
            0 <= i < head.len() && 0 <= j < head.len() && #[trigger] part(head[i]).contains(m)
                && #[trigger] part(head[j]).contains(m) implies i == j by {
            assert(part(keys[i]).contains(m) && part(keys[j]).contains(m));
        }
        lemma_chain_distinct(head, part);
        indices::lemma_chain(head, part);
        assert(part(keys[keys.len() - 1]).no_duplicates());
        assert forall|m: Member| a.contains(m) implies !b.contains(m) by {
            let i = choose|i: int| 0 <= i < head.len() && part(#[trigger] head[i]).contains(m);
            assert(part(keys[i]).contains(m));
            if b.contains(m) {
                assert(part(keys[keys.len() - 1]).contains(m));
            }
        }
        assert forall|i: int, j: int|
            0 <= i < whole.len() && 0 <= j < whole.len() && i != j implies whole[i]
            != whole[j] by {
            if i < a.len() && j < a.len() {
                assert(a[i] != a[j]);
            } else if i >= a.len() && j >= a.len() {
                assert(b[i - a.len()] != b[j - a.len()]);
            } else if i < a.len() {
                assert(a.contains(a[i]));
                assert(b.contains(b[j - a.len()]));
            } else {
                assert(a.contains(a[j]));
                assert(b.contains(b[i - a.len()]));
            }
        }
    }
}

/// A chain over the items of a set holds nothing twice where its parts do not and
/// share nothing. Its members are those of the parts.
proof fn lemma_chain_over(set: Set<usize>, part: spec_fn(usize) -> Seq<Member>)
    requires
        set.finite(),
        forall|k: usize| set.contains(k) ==> #[trigger] part(k).no_duplicates(),
        forall|j: usize, k: usize, m: Member|
            set.contains(j) && set.contains(k) && #[trigger] part(j).contains(m)
                && #[trigger] part(k).contains(m) ==> j == k,
    ensures
        topology::chain(order::sorted(set), part).no_duplicates(),
        forall|m: Member| #[trigger]
            topology::chain(order::sorted(set), part).contains(m) ==> exists|k: usize|
                set.contains(k) && #[trigger] part(k).contains(m),
{
    let keys = order::sorted(set);
    order::lemma_sorted(set);
    assert forall|i: int| 0 <= i < keys.len() implies set.contains(#[trigger] keys[i]) by {
        assert(keys.contains(keys[i]));
    }
    assert forall|i: int, j: int, m: Member|
        0 <= i < keys.len() && 0 <= j < keys.len() && #[trigger] part(keys[i]).contains(m)
            && #[trigger] part(keys[j]).contains(m) implies i == j by {
        assert(keys[i] == keys[j]);
    }
    lemma_chain_distinct(keys, part);
    indices::lemma_chain(keys, part);
    assert forall|m: Member| #[trigger] topology::chain(keys, part).contains(m) implies exists|
        k: usize,
    |
        set.contains(k) && #[trigger] part(k).contains(m) by {
        let i = choose|i: int| 0 <= i < keys.len() && part(#[trigger] keys[i]).contains(m);
        assert(set.contains(keys[i]));
    }
}

/// The members of an LLC come up once where no CPU is in two of its cores.
proof fn lemma_llc_members(llc: LlcView, l: usize)
    requires
        llc.finite(),
        forall|c: usize, d: usize, u: usize| #[trigger]
            llc.has_cpu(c, u) && #[trigger] llc.has_cpu(d, u) ==> c == d,
    ensures
        llc.members(l).no_duplicates(),
        forall|m: Member| #[trigger]
            llc.members(l).contains(m) ==> match m {
                Member::Llc(k) => k == l,
                Member::Core(c) => llc.cores.contains_key(c),
                Member::Cpu(u) => exists|c: usize| llc.has_cpu(c, u),
            },
{
    let set = llc.cores.dom();
    let parts = |c: usize| llc.cores[c].members(c);
    assert forall|c: usize| set.contains(c) implies {
        &&& #[trigger] parts(c).no_duplicates()
        &&& forall|m: Member| #[trigger]
            parts(c).contains(m) ==> m == Member::Core(c) || (m matches Member::Cpu(u)
                && llc.has_cpu(c, u))
    } by {
        assert(llc.cores.contains_key(c));
        indices::lemma_core_members(llc.cores[c], c);
    }
    assert forall|c: usize, d: usize, m: Member|
        set.contains(c) && set.contains(d) && #[trigger] parts(c).contains(m)
            && #[trigger] parts(d).contains(m) implies c == d by {
        assert(parts(c).no_duplicates() && parts(d).no_duplicates());
        match m {
            Member::Cpu(u) => {
                assert(llc.has_cpu(c, u) && llc.has_cpu(d, u));
            },
            _ => {},
        }
    }
    lemma_chain_over(set, parts);
    let inner = topology::chain(order::sorted(set), parts);
    let members = llc.members(l);
    assert forall|m: Member| #[trigger] inner.contains(m) implies match m {
        Member::Llc(_) => false,
        Member::Core(c) => llc.cores.contains_key(c),
        Member::Cpu(u) => exists|c: usize| llc.has_cpu(c, u),
    } by {
        let c = choose|c: usize| set.contains(c) && #[trigger] parts(c).contains(m);
        assert(parts(c).no_duplicates());
        match m {
            Member::Cpu(u) => {
                assert(llc.has_cpu(c, u));
            },
            _ => {},
        }
    }
    assert forall|m: Member| #[trigger] members.contains(m) implies match m {
        Member::Llc(k) => k == l,
        Member::Core(c) => llc.cores.contains_key(c),
        Member::Cpu(u) => exists|c: usize| llc.has_cpu(c, u),
    } by {
        let i = choose|i: int| 0 <= i < members.len() && members[i] == m;
        if i < inner.len() {
            assert(inner[i] == m);
            assert(inner.contains(m));
        }
    }
    assert forall|i: int, j: int|
        0 <= i < members.len() && 0 <= j < members.len() && i != j implies members[i]
        != members[j] by {
        if i < inner.len() {
            assert(inner.contains(inner[i]));
        }
        if j < inner.len() {
            assert(inner.contains(inner[j]));
        }
    }
}

/// Whether no core is in two LLCs of the node.
pub open spec fn cores_apart(node: NodeView) -> bool {
    forall|l: usize, m: usize, c: usize| #[trigger]
        node.has_core(l, c) && #[trigger] node.has_core(m, c) ==> l == m
}

/// Whether no CPU is in two cores of the node.
pub open spec fn cpus_apart(node: NodeView) -> bool {
    forall|l: usize, c: usize, m: usize, d: usize, u: usize| #[trigger]
        node.has_cpu(l, c, u) && #[trigger] node.has_cpu(m, d, u) ==> l == m && c == d
}

/// The members of a node come up once where no core is in two of its LLCs and no CPU
/// is in two of its cores.
proof fn lemma_node_members(node: NodeView)
    requires
        node.finite(),
        cores_apart(node),
        cpus_apart(node),
    ensures
        node.members().no_duplicates(),
        forall|m: Member| #[trigger]
            node.members().contains(m) ==> match m {
                Member::Llc(l) => node.llcs.contains_key(l),
                Member::Core(c) => exists|l: usize| node.has_core(l, c),
                Member::Cpu(u) => exists|l: usize, c: usize| node.has_cpu(l, c, u),
            },
{
    let set = node.llcs.dom();
    let parts = |l: usize| node.llcs[l].members(l);
    assert forall|l: usize| set.contains(l) implies {
        &&& #[trigger] parts(l).no_duplicates()
        &&& forall|m: Member| #[trigger]
            parts(l).contains(m) ==> match m {
                Member::Llc(k) => k == l,
                Member::Core(c) => node.has_core(l, c),
                Member::Cpu(u) => exists|c: usize| node.has_cpu(l, c, u),
            }
    } by {
        let llc = node.llcs[l];
        assert(node.llcs.contains_key(l));
        assert forall|c: usize, d: usize, u: usize| #[trigger]
            llc.has_cpu(c, u) && #[trigger] llc.has_cpu(d, u) implies c == d by {
            assert(node.has_cpu(l, c, u) && node.has_cpu(l, d, u));
        }
        lemma_llc_members(llc, l);
        assert forall|m: Member| #[trigger] parts(l).contains(m) implies match m {
            Member::Llc(k) => k == l,
            Member::Core(c) => node.has_core(l, c),
            Member::Cpu(u) => exists|c: usize| node.has_cpu(l, c, u),
        } by {
            match m {
                Member::Cpu(u) => {
                    let c = choose|c: usize| llc.has_cpu(c, u);
                    assert(node.has_cpu(l, c, u));
                },
                _ => {},
            }
        }
    }
    assert forall|l: usize, k: usize, m: Member|
        set.contains(l) && set.contains(k) && #[trigger] parts(l).contains(m)
            && #[trigger] parts(k).contains(m) implies l == k by {
        assert(parts(l).no_duplicates() && parts(k).no_duplicates());
        match m {
            Member::Llc(_) => {},
            Member::Core(c) => {
                assert(node.has_core(l, c) && node.has_core(k, c));
            },
            Member::Cpu(u) => {
                let c = choose|c: usize| node.has_cpu(l, c, u);
                let d = choose|d: usize| node.has_cpu(k, d, u);
                assert(node.has_cpu(l, c, u) && node.has_cpu(k, d, u));
            },
        }
    }
    lemma_chain_over(set, parts);
    assert(node.members() == topology::chain(order::sorted(set), parts));
    assert forall|m: Member| #[trigger] node.members().contains(m) implies match m {
        Member::Llc(l) => node.llcs.contains_key(l),
        Member::Core(c) => exists|l: usize| node.has_core(l, c),
        Member::Cpu(u) => exists|l: usize, c: usize| node.has_cpu(l, c, u),
    } by {
        let l = choose|l: usize| set.contains(l) && #[trigger] parts(l).contains(m);
        assert(parts(l).no_duplicates());
        match m {
            Member::Llc(_) => {},
            Member::Core(c) => {
                assert(node.has_core(l, c));
            },
            Member::Cpu(u) => {
                let c = choose|c: usize| node.has_cpu(l, c, u);
                assert(node.has_cpu(l, c, u));
            },
        }
    }
}

/// Whether the node `n` has the LLC `l`.
pub open spec fn llc_in(nodes: Map<usize, NodeView>, n: usize, l: usize) -> bool {
    nodes.contains_key(n) && nodes[n].llcs.contains_key(l)
}

/// Whether the LLC `l` of the node `n` has the core `c`.
pub open spec fn core_in(nodes: Map<usize, NodeView>, n: usize, l: usize, c: usize) -> bool {
    nodes.contains_key(n) && nodes[n].has_core(l, c)
}

/// Whether the core `c` of the LLC `l` of the node `n` has the CPU `u`.
pub open spec fn cpu_in(
    nodes: Map<usize, NodeView>,
    n: usize,
    l: usize,
    c: usize,
    u: usize,
) -> bool {
    nodes.contains_key(n) && nodes[n].has_cpu(l, c, u)
}

/// Whether no LLC is in two nodes, no core in two LLCs and no CPU in two cores.
pub open spec fn all_apart(nodes: Map<usize, NodeView>) -> bool {
    &&& forall|n: usize, m: usize, l: usize| #[trigger]
        llc_in(nodes, n, l) && #[trigger] llc_in(nodes, m, l) ==> n == m
    &&& forall|n: usize, l: usize, m: usize, k: usize, c: usize| #[trigger]
        core_in(nodes, n, l, c) && #[trigger] core_in(nodes, m, k, c) ==> n == m && l == k
    &&& forall|n: usize, l: usize, c: usize, m: usize, k: usize, d: usize, u: usize| #[trigger]
        cpu_in(nodes, n, l, c, u) && #[trigger] cpu_in(nodes, m, k, d, u) ==> n == m && l == k
            && c == d
}

/// Nodes can be put together exactly where no LLC is in two nodes, no core in two LLCs
/// and no CPU in two cores.
pub proof fn law_assembly_succeeds(span: CpumaskView, nodes: Map<usize, NodeView>)
    requires
        nodes.dom().finite(),
        forall|n: usize| #[trigger] nodes.contains_key(n) ==> nodes[n].finite(),
    ensures
        topology::assembled(span, nodes) is Ok <==> all_apart(nodes),
{
    indices::law_first_clash(Set::empty(), topology::members_of(nodes));
    if all_apart(nodes) {
        lemma_members_once(nodes);
    }
    if topology::assembled(span, nodes) is Ok {
        let topo = topology::assembled(span, nodes)->Ok_0;
        indices::law_indices_hold(span, nodes, topo);
        assert forall|n: usize| #[trigger] nodes.contains_key(n) implies topo.nodes.contains_key(n)
            && topo.nodes[n] == nodes[n].indexed() by {}
        assert forall|n: usize, m: usize, l: usize| #[trigger]
            llc_in(nodes, n, l) && #[trigger] llc_in(nodes, m, l) implies n == m by {
            assert(topo.has_llc(n, l) && topo.has_llc(m, l));
        }
        assert forall|n: usize, l: usize, m: usize, k: usize, c: usize| #[trigger]
            core_in(nodes, n, l, c) && #[trigger] core_in(nodes, m, k, c) implies n == m && l
            == k by {
            assert(topo.has_core(n, l, c) && topo.has_core(m, k, c));
        }
        assert forall|n: usize, l: usize, c: usize, m: usize, k: usize, d: usize, u: usize|
            #[trigger]
            cpu_in(nodes, n, l, c, u) && #[trigger] cpu_in(nodes, m, k, d, u) implies n == m && l
            == k && c == d by {
            assert(topo.has_cpu(n, l, c, u) && topo.has_cpu(m, k, d, u));
        }
    }
}

/// Where nothing is in two places, no member of the nodes comes up twice.
proof fn lemma_members_once(nodes: Map<usize, NodeView>)
    requires
        nodes.dom().finite(),
        forall|n: usize| #[trigger] nodes.contains_key(n) ==> nodes[n].finite(),
        all_apart(nodes),
    ensures
        topology::members_of(nodes).no_duplicates(),
{
    let set = nodes.dom();
    let parts = |n: usize| nodes[n].members();
    assert forall|n: usize| set.contains(n) implies {
        &&& #[trigger] parts(n).no_duplicates()
        &&& forall|m: Member| #[trigger]
            parts(n).contains(m) ==> match m {
                Member::Llc(l) => nodes[n].llcs.contains_key(l),
                Member::Core(c) => exists|l: usize| nodes[n].has_core(l, c),
                Member::Cpu(u) => exists|l: usize, c: usize| nodes[n].has_cpu(l, c, u),
            }
    } by {
        let node = nodes[n];
        assert(nodes.contains_key(n));
        assert forall|l: usize, m: usize, c: usize| #[trigger]
            node.has_core(l, c) && #[trigger] node.has_core(m, c) implies l == m by {
            assert(core_in(nodes, n, l, c) && core_in(nodes, n, m, c));
        }
        assert forall|l: usize, c: usize, m: usize, d: usize, u: usize| #[trigger]
            node.has_cpu(l, c, u) && #[trigger] node.has_cpu(m, d, u) implies l == m && c == d by {
            assert(cpu_in(nodes, n, l, c, u) && cpu_in(nodes, n, m, d, u));
        }
        lemma_node_members(node);
    }
    assert forall|n: usize, k: usize, m: Member|
        set.contains(n) && set.contains(k) && #[trigger] parts(n).contains(m)
            && #[trigger] parts(k).contains(m) implies n == k by {
        assert(parts(n).no_duplicates() && parts(k).no_duplicates());
        match m {
            Member::Llc(l) => {
                assert(llc_in(nodes, n, l) && llc_in(nodes, k, l));
            },
            Member::Core(c) => {
                let l = choose|l: usize| nodes[n].has_core(l, c);
                let j = choose|j: usize| nodes[k].has_core(j, c);
                assert(core_in(nodes, n, l, c) && core_in(nodes, k, j, c));
            },
            Member::Cpu(u) => {
                let (l, c) = choose|l: usize, c: usize| nodes[n].has_cpu(l, c, u);
                let (j, d) = choose|j: usize, d: usize| nodes[k].has_cpu(j, d, u);
                assert(cpu_in(nodes, n, l, c, u) && cpu_in(nodes, k, j, d, u));
            },
        }
    }
    lemma_chain_over(set, parts);
    assert(topology::members_of(nodes) == topology::chain(order::sorted(set), parts));
}

/// Whether no CPU is in two of the nodes.
pub open spec fn nodes_apart(nodes: Map<usize, NodeView>) -> bool {
    forall|n: usize, m: usize, u: usize|
        #![trigger nodes[n].span.cpus.contains(u), nodes[m].span.cpus.contains(u)]
        nodes.contains_key(n) && nodes.contains_key(m) && nodes[n].span.cpus.contains(u)
            && nodes[m].span.cpus.contains(u) ==> n == m
}

/// The nodes of a host can be put together exactly where no CPU is in two nodes and no
/// core is in two LLCs of its node.
pub proof fn law_host_assembly_succeeds(
    span: CpumaskView,
    nodes: Map<usize, NodeView>,
    ctx: TopoCtxView,
    facts: Facts,
)
    requires
        soundness::nodes_sound(nodes, ctx, facts),
    ensures
        topology::assembled(span, nodes) is Ok <==> {
            &&& nodes_apart(nodes)
            &&& forall|n: usize| #[trigger] nodes.contains_key(n) ==> cores_apart(nodes[n])
        },
{
    assert forall|n: usize| #[trigger] nodes.contains_key(n) implies nodes[n].finite() by {
        soundness::lemma_sound_is_finite(nodes[n], facts, n);
    }
    law_assembly_succeeds(span, nodes);
    if nodes_apart(nodes) && (forall|n: usize| #[trigger]
        nodes.contains_key(n) ==> cores_apart(nodes[n])) {
        lemma_host_apart(nodes, ctx, facts);
    }
    if all_apart(nodes) {
        assert forall|n: usize| #[trigger] nodes.contains_key(n) implies cores_apart(nodes[n]) by {
            assert forall|l: usize, m: usize, c: usize| #[trigger]
                nodes[n].has_core(l, c) && #[trigger] nodes[n].has_core(m, c) implies l == m by {
                assert(core_in(nodes, n, l, c) && core_in(nodes, n, m, c));
            }
        }
        assert forall|n: usize, m: usize, u: usize|
            #![trigger nodes[n].span.cpus.contains(u), nodes[m].span.cpus.contains(u)]
            nodes.contains_key(n) && nodes.contains_key(m) && nodes[n].span.cpus.contains(u)
                && nodes[m].span.cpus.contains(u) implies n == m by {
            let (l, c) = soundness::lemma_spanned_cpu(nodes[n], facts, n, u);
            let (k, d) = soundness::lemma_spanned_cpu(nodes[m], facts, m, u);
            assert(cpu_in(nodes, n, l, c, u) && cpu_in(nodes, m, k, d, u));
        }
    }
}

/// In sound nodes that share no CPU, and no core between LLCs, nothing is in two
/// places.
proof fn lemma_host_apart(nodes: Map<usize, NodeView>, ctx: TopoCtxView, facts: Facts)
    requires
        soundness::nodes_sound(nodes, ctx, facts),
        nodes_apart(nodes),
        forall|n: usize| #[trigger] nodes.contains_key(n) ==> cores_apart(nodes[n]),
    ensures
        all_apart(nodes),
{
    assert forall|n: usize, m: usize, l: usize| #[trigger]
        llc_in(nodes, n, l) && #[trigger] llc_in(nodes, m, l) implies n == m by {
        assert(ctx.names(nodes[n]) && ctx.names(nodes[m]));
        assert(ctx.llcs.contains_key((n, nodes[n].llcs[l].kernel_id)));
        assert(ctx.llcs.contains_key((m, nodes[m].llcs[l].kernel_id)));
    }
    assert forall|n: usize, l: usize, m: usize, k: usize, c: usize| #[trigger]
        core_in(nodes, n, l, c) && #[trigger] core_in(nodes, m, k, c) implies n == m && l == k by {
        assert(ctx.names(nodes[n]) && ctx.names(nodes[m]));
        assert(nodes[n].llcs.contains_key(l) && nodes[m].llcs.contains_key(k));
        assert(nodes[n].llcs[l].cores.contains_key(c) && nodes[m].llcs[k].cores.contains_key(c));
        assert(ctx.cores.contains_key((n, nodes[n].llcs[l].cores[c].kernel_id)));
        assert(ctx.cores.contains_key((m, nodes[m].llcs[k].cores[c].kernel_id)));
        assert(nodes[n].has_core(l, c) && nodes[n].has_core(k, c));
    }
    assert forall|n: usize, l: usize, c: usize, m: usize, k: usize, d: usize, u: usize| #[trigger]
        cpu_in(nodes, n, l, c, u) && #[trigger] cpu_in(nodes, m, k, d, u) implies n == m && l == k
        && c == d by {
        soundness::lemma_cpu_is_spanned(nodes[n], facts, n, l, c, u);
        soundness::lemma_cpu_is_spanned(nodes[m], facts, m, k, d, u);
        assert(nodes[n].span.cpus.contains(u) && nodes[m].span.cpus.contains(u));
        assert(nodes[n].spans(l, u) && nodes[n].spans(k, u));
        let llc = nodes[n].llcs[l];
        assert(llc.sound(facts, l, n));
        assert(llc.has_cpu(c, u) && llc.has_cpu(d, u));
    }
}

/// Whether the items are CPUs that can be put into one node: each online one has a
/// known core, and comes up once.
pub open spec fn insertable(facts: Facts, items: Seq<Result<usize, ErrorView>>) -> bool {
    &&& forall|i: int|
        0 <= i < items.len() ==> (#[trigger] items[i] matches Ok(cpu) && (facts.online.cpus.contains(
            cpu,
        ) ==> facts.of(cpu).core_id is Some))
    &&& forall|i: int, j: int|
        0 <= i < j < items.len() && #[trigger] items[i] == #[trigger] items[j]
            ==> !facts.online.cpus.contains(items[i]->Ok_0)
}

/// An empty node can be filled exactly from items that are insertable.
pub proof fn law_fill_succeeds(start: Build, facts: Facts, items: Seq<Result<usize, ErrorView>>)
    requires
        start.node.span.cpus == Set::<usize>::empty(),
        start.ctx.finite(),
    ensures
        start.filled(facts, items).1 is None <==> insertable(facts, items),
    decreases items.len(),
{
    if items.len() > 0 {
        let head = items.drop_last();
        law_fill_succeeds(start, facts, head);
        soundness::lemma_filled_grows(start, facts, head);
        assert forall|i: int| 0 <= i < head.len() implies head[i] == #[trigger] items[i] by {}
        if insertable(facts, items) {
            assert forall|i: int| 0 <= i < head.len() implies (#[trigger] head[i] matches Ok(cpu)
                && (facts.online.cpus.contains(cpu) ==> facts.of(cpu).core_id is Some)) by {
                assert(head[i] == items[i]);
            }
            assert forall|i: int, j: int|
                0 <= i < j < head.len() && #[trigger] head[i] == #[trigger] head[j]
                    implies !facts.online.cpus.contains(head[i]->Ok_0) by {
                assert(head[i] == items[i] && head[j] == items[j]);
            }
            assert(insertable(facts, head));
            assert(items[items.len() - 1] is Ok);
        }
        if insertable(facts, head) && items.last() is Ok {
            let cpu = items.last()->Ok_0;
            let build = start.filled(facts, head).0;
            assert(build.node.span.cpus =~= soundness::online_items(facts, head));
            if facts.online.cpus.contains(cpu) && facts.of(cpu).core_id is Some {
                if head.contains(items.last()) {
                    let i = choose|i: int| 0 <= i < head.len() && head[i] == items.last();
                    assert(items[i] == items[items.len() - 1]);
                    assert(soundness::online_items(facts, head).contains(cpu));
                } else {
                    assert(!soundness::online_items(facts, head).contains(cpu));
                }
            }
            if start.filled(facts, items).1 is None {
                assert forall|i: int| 0 <= i < items.len() implies (#[trigger] items[i] matches Ok(
                    u,
                ) && (facts.online.cpus.contains(u) ==> facts.of(u).core_id is Some)) by {
                    if i < head.len() {
                        assert(head[i] is Ok);
                    }
                }
                assert forall|i: int, j: int|
                    0 <= i < j < items.len() && #[trigger] items[i] == #[trigger] items[j]
                        implies !facts.online.cpus.contains(items[i]->Ok_0) by {
                    assert(head[i] == items[i]);
                    if j < head.len() {
                        assert(head[j] == items[j]);
                    } else {
                        assert(head.contains(items.last()));
                    }
                }
            }
        }
    }
}

/// NUMA nodes can be made exactly where each directory is that of a node and lists
/// insertable CPUs.
pub proof fn law_numa_nodes_succeed(sys: Sysfs, dirs: Seq<NodeDir>, online: CpumaskView)
    ensures
        builder::numa_nodes(sys, dirs, online, TopoCtxView::none()).error is None <==> forall|i: int|
            0 <= i < dirs.len() ==> numa_dir_fits(sys, online, #[trigger] dirs[i]),
    decreases dirs.len(),
{
    if dirs.len() > 0 {
        let head = dirs.drop_last();
        law_numa_nodes_succeed(sys, head, online);
        let before = builder::numa_nodes(sys, head, online, TopoCtxView::none());
        soundness::lemma_numa_finite(sys, head, online, TopoCtxView::none());
        assert forall|i: int| 0 <= i < head.len() implies head[i] == #[trigger] dirs[i] by {}
        if forall|i: int| 0 <= i < dirs.len() ==> numa_dir_fits(sys, online, #[trigger] dirs[i]) {
            assert forall|i: int| 0 <= i < head.len() implies numa_dir_fits(
                sys,
                online,
                #[trigger] head[i],
            ) by {
                assert(numa_dir_fits(sys, online, dirs[i]));
            }
            assert(numa_dir_fits(sys, online, dirs[dirs.len() - 1]));
        }
        match sysfs::node_dir_id(dirs.last().path@) {
            None => {},
            Some(n) => {
                let node = builder::empty_node(
                    n,
                    online.nr_cpu_ids,
                    builder::gpus_of_node(sys.gpus@, n),
                );
                law_fill_succeeds(
                    Build { node, ctx: before.ctx },
                    builder::facts_of(sys, online, false),
                    builder::node_items(dirs.last()),
                );
            },
        }
        if builder::numa_nodes(sys, dirs, online, TopoCtxView::none()).error is None {
            assert forall|i: int| 0 <= i < dirs.len() implies numa_dir_fits(
                sys,
                online,
                #[trigger] dirs[i],
            ) by {
                if i < head.len() {
                    assert(numa_dir_fits(sys, online, head[i]));
                }
            }
        }
    }
}

/// Whether the directory is that of a NUMA node and lists insertable CPUs.
pub open spec fn numa_dir_fits(sys: Sysfs, online: CpumaskView, dir: NodeDir) -> bool {
    &&& sysfs::node_dir_id(dir.path@) is Some
    &&& insertable(builder::facts_of(sys, online, false), builder::node_items(dir))
}

/// The default node can be made exactly where sysfs has the directory of CPUs, each
/// directory in it is that of a CPU, and these CPUs are insertable.
pub proof fn law_default_node_succeeds(sys: Sysfs, online: CpumaskView, flattened: bool)
    ensures
        builder::default_node(sys, online, TopoCtxView::none(), flattened).error is None <==> {
            &&& sys.has_cpu_dir
            &&& sysfs::cpu_ids(sys.cpu_dirs@) matches Ok(ids)
            &&& insertable(
                builder::facts_of(sys, online, flattened),
                builder::ids_as_items(ids),
            )
        },
{
    if sysfs::cpu_ids(sys.cpu_dirs@) is Ok {
        let node = builder::empty_node(
            0,
            online.nr_cpu_ids,
            builder::gpus_of_node(sys.gpus@, 0),
        );
        law_fill_succeeds(
            Build { node, ctx: TopoCtxView::none() },
            builder::facts_of(sys, online, flattened),
            builder::ids_as_items(sysfs::cpu_ids(sys.cpu_dirs@)->Ok_0),
        );
    }
}

/// A flattened topology is owed wherever its node can be made: no CPU, core or LLC
/// comes up twice in it.
pub proof fn law_flattened_succeeds(sys: Sysfs, online: CpumaskView)
    requires
        sysfs::online_cpus(sysfs::text_view(sys.online), sys.nr_cpu_ids) == Ok::<_, ErrorView>(
            online,
        ),
        builder::default_node(sys, online, TopoCtxView::none(), true).ctx.countable(),
    ensures
        topology::built(sys, true) is Ok <==> builder::default_node(
            sys,
            online,
            TopoCtxView::none(),
            true,
        ).error is None,
{
    let made = builder::default_node(sys, online, TopoCtxView::none(), true);
    if made.error is None {
        let facts = builder::facts_of(sys, online, true);
        soundness::lemma_default(sys, online, true);
        soundness::lemma_flattened(sys, online);
        law_host_assembly_succeeds(online, made.nodes, made.ctx, facts);
        assert forall|n: usize| #[trigger] made.nodes.contains_key(n) implies n == 0 by {
            assert(made.nodes.dom().contains(n));
        }
        assert(nodes_apart(made.nodes));
        assert forall|l: usize, m: usize, c: usize| #[trigger]
            made.nodes[0].has_core(l, c) && #[trigger] made.nodes[0].has_core(m, c) implies l
            == m by {
            assert(made.nodes[0].llcs.contains_key(l) && made.nodes[0].llcs.contains_key(m));
        }
    }
}

} // verus!
