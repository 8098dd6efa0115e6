//! What holds of the nodes of a topology, from the first CPU on.

use crate::builder;
use crate::builder::{Build, Facts, TopoCtxView};
use crate::cpumask::CpumaskView;
use crate::error::ErrorView;
use crate::hierarchy::{CoreView, Gpu, GpuIndex, LlcView, NodeView};
use crate::sysfs;
use crate::sysfs::{NodeDir, Sysfs};
use crate::topology;
use vstd::prelude::*;

verus! {

/// The mask of exactly the given CPUs.
pub open spec fn mask_of(nr_cpu_ids: nat, cpus: Set<usize>) -> CpumaskView {
    CpumaskView { nr_cpu_ids, cpus }
}

impl CoreView {
    /// Whether the core is what `facts` say, as the core `c` of the LLC `l` of the
    /// node `n`: it spans exactly its CPUs, has one at least, and each of them is
    /// online, carries what sysfs says about it and belongs to this core and LLC by
    /// its kernel IDs.
    pub open spec fn sound(
        self,
        facts: Facts,
        c: usize,
        l: usize,
        llc_kernel_id: usize,
        n: usize,
    ) -> bool {
        &&& self.id == c
        &&& self.llc_id == l
        &&& self.node_id == n
        &&& self.cpus.dom().finite()
        &&& self.span == mask_of(facts.online.nr_cpu_ids, self.cpus.dom())
        &&& exists|u: usize| #[trigger]
            self.cpus.contains_key(u) && facts.core_type(u) == self.core_type
        &&& forall|u: usize| #[trigger]
            self.cpus.contains_key(u) ==> {
                &&& facts.online.cpus.contains(u)
                &&& facts.of(u).core_id == Some(self.kernel_id)
                &&& facts.llc_kernel_id(u) == llc_kernel_id
                &&& self.cpus[u] == facts.cpu(u, c, l, n)
            }
    }
}

impl LlcView {
    /// Whether the LLC is what `facts` say, as the LLC `l` of the node `n`: it spans
    /// exactly the CPUs of its cores, has a core at least, and no two cores share a
    /// CPU.
    pub open spec fn sound(self, facts: Facts, l: usize, n: usize) -> bool {
        &&& self.id == l
        &&& self.node_id == n
        &&& self.cores.dom().finite()
        &&& exists|c: usize| #[trigger] self.cores.contains_key(c)
        &&& self.span.nr_cpu_ids == facts.online.nr_cpu_ids
        &&& forall|c: usize| #[trigger]
            self.cores.contains_key(c) ==> self.cores[c].sound(facts, c, l, self.kernel_id, n)
        &&& forall|u: usize| #[trigger]
            self.span.cpus.contains(u) ==> exists|c: usize| self.has_cpu(c, u)
        &&& forall|c: usize, u: usize| #[trigger] self.has_cpu(c, u) ==> self.span.cpus.contains(u)
        &&& forall|c: usize, d: usize, u: usize| #[trigger]
            self.has_cpu(c, u) && #[trigger] self.has_cpu(d, u) ==> c == d
    }
}

impl NodeView {
    /// Whether the LLC `l` of the node spans the CPU `u`.
    pub open spec fn spans(self, l: usize, u: usize) -> bool {
        self.llcs.contains_key(l) && self.llcs[l].span.cpus.contains(u)
    }

    /// Whether the node is what `facts` say, as the node `n`: it spans exactly the
    /// CPUs of its LLCs, and no two LLCs share a CPU.
    pub open spec fn sound(self, facts: Facts, n: usize) -> bool {
        &&& self.id == n
        &&& self.llcs.dom().finite()
        &&& self.span.nr_cpu_ids == facts.online.nr_cpu_ids
        &&& forall|l: usize| #[trigger]
            self.llcs.contains_key(l) ==> self.llcs[l].sound(facts, l, n)
        &&& forall|u: usize| #[trigger]
            self.span.cpus.contains(u) ==> exists|l: usize| self.spans(l, u)
        &&& forall|l: usize, u: usize| #[trigger] self.spans(l, u) ==> self.span.cpus.contains(u)
        &&& forall|l: usize, m: usize, u: usize| #[trigger]
            self.spans(l, u) && #[trigger] self.spans(m, u) ==> l == m
    }
}

/// Whether the ID `id` was given out.
pub open spec fn given_out(ids: Map<(usize, usize), usize>, id: usize) -> bool {
    exists|k: (usize, usize)| #[trigger] ids.contains_key(k) && ids[k] == id
}

/// Whether IDs were given out one after the other, from 0 on, each once.
pub open spec fn ids_sound(ids: Map<(usize, usize), usize>) -> bool {
    &&& ids.dom().finite()
    &&& ids.len() <= usize::MAX
    &&& forall|k: (usize, usize)| #[trigger] ids.contains_key(k) ==> ids[k] < ids.len()
    &&& forall|id: usize| id < ids.len() ==> #[trigger] given_out(ids, id)
    &&& forall|j: (usize, usize), k: (usize, usize)| #[trigger]
        ids.contains_key(j) && #[trigger] ids.contains_key(k) && ids[j] == ids[k] ==> j == k
}

impl TopoCtxView {
    /// Whether the numbers of IDs that were given out are within the range of `usize`.
    pub open spec fn countable(self) -> bool {
        self.cores.len() <= usize::MAX && self.llcs.len() <= usize::MAX
    }

    pub open spec fn sound(self) -> bool {
        ids_sound(self.cores) && ids_sound(self.llcs)
    }

    /// Whether the IDs of the LLCs and cores of `node` are those that their kernel
    /// IDs stand for.
    pub open spec fn names(self, node: NodeView) -> bool {
        forall|l: usize| #[trigger]
            node.llcs.contains_key(l) ==> {
                let llc = node.llcs[l];
                &&& self.llcs.contains_key((node.id, llc.kernel_id))
                &&& self.llcs[(node.id, llc.kernel_id)] == l
                &&& forall|c: usize| #[trigger]
                    llc.cores.contains_key(c) ==> {
                        &&& self.cores.contains_key((node.id, llc.cores[c].kernel_id))
                        &&& self.cores[(node.id, llc.cores[c].kernel_id)] == c
                    }
            }
    }
}

/// IDs increase: a key that gets an ID gets one that is greater than all before, and
/// the other keys keep theirs.
pub proof fn law_ids_increase(ids: Map<(usize, usize), usize>, key: (usize, usize))
    requires
        ids_sound(ids),
        builder::with_id(ids, key).len() <= usize::MAX,
    ensures
        ids_sound(builder::with_id(ids, key)),
        ids.len() <= builder::with_id(ids, key).len(),
        builder::with_id(ids, key).contains_key(key),
        forall|k: (usize, usize)| #[trigger]
            ids.contains_key(k) ==> builder::with_id(ids, key).contains_key(k)
                && builder::with_id(ids, key)[k] == ids[k],
        !ids.contains_key(key) ==> forall|k: (usize, usize)| #[trigger]
            ids.contains_key(k) ==> ids[k] < builder::with_id(ids, key)[key],
{
    let after = builder::with_id(ids, key);
    if ids.contains_key(key) {
        assert(after =~= ids);
    } else {
        assert(after.dom() =~= ids.dom().insert(key));
        assert forall|id: usize| id < after.len() implies #[trigger] given_out(after, id) by {
            if id < ids.len() {
                assert(given_out(ids, id));
                let k = choose|k: (usize, usize)| #[trigger] ids.contains_key(k) && ids[k] == id;
                assert(after.contains_key(k) && after[k] == id);
            } else {
                assert(after.contains_key(key) && after[key] == id);
            }
        }
    }
}

impl Build {
    /// Whether the node is what `facts` say, and its IDs are those that were given
    /// out.
    pub open spec fn sound(self, facts: Facts) -> bool {
        &&& self.node.sound(facts, self.node.id)
        &&& self.ctx.sound()
        &&& self.ctx.names(self.node)
    }
}

/// A core stays sound with one CPU more that belongs to it.
proof fn lemma_core_grows(
    facts: Facts,
    core: CoreView,
    after: CoreView,
    c: usize,
    l: usize,
    llc_kernel_id: usize,
    n: usize,
    cpu: usize,
)
    requires
        core.sound(facts, c, l, llc_kernel_id, n) || core == builder::empty_core(
            c,
            core.kernel_id,
            facts.core_type(cpu),
            l,
            n,
            facts.online.nr_cpu_ids,
        ),
        facts.online.cpus.contains(cpu),
        facts.of(cpu).core_id == Some(core.kernel_id),
        facts.llc_kernel_id(cpu) == llc_kernel_id,
        after == (CoreView {
            cpus: core.cpus.insert(cpu, facts.cpu(cpu, c, l, n)),
            span: core.span.with(cpu),
            ..core
        }),
    ensures
        after.sound(facts, c, l, llc_kernel_id, n),
{
    assert(after.cpus.dom() =~= core.cpus.dom().insert(cpu));
    assert(after.span =~= mask_of(facts.online.nr_cpu_ids, after.cpus.dom()));
    if core.sound(facts, c, l, llc_kernel_id, n) {
        let u = choose|u: usize| #[trigger]
            core.cpus.contains_key(u) && facts.core_type(u) == core.core_type;
        assert(after.cpus.contains_key(u));
    } else {
        assert(after.cpus.contains_key(cpu));
    }
}

/// An LLC stays sound with one CPU more that belongs to it and that it did not
/// have.
proof fn lemma_llc_grows(
    facts: Facts,
    llc: LlcView,
    core: CoreView,
    after: LlcView,
    c: usize,
    l: usize,
    n: usize,
    cpu: usize,
)
    requires
        llc.sound(facts, l, n) || llc == builder::empty_llc(
            l,
            llc.kernel_id,
            n,
            facts.online.nr_cpu_ids,
        ),
        !llc.span.cpus.contains(cpu),
        core.sound(facts, c, l, llc.kernel_id, n),
        core.cpus.contains_key(cpu),
        forall|u: usize|
            u != cpu ==> (#[trigger] core.cpus.contains_key(u) <==> llc.has_cpu(c, u)),
        after == (LlcView {
            cores: llc.cores.insert(c, core),
            span: llc.span.with(cpu),
            ..llc
        }),
    ensures
        after.sound(facts, l, n),
{
    assert(after.cores.dom() =~= llc.cores.dom().insert(c));
    assert(after.cores.contains_key(c));
    assert forall|d: usize| #[trigger] after.cores.contains_key(d) implies after.cores[d].sound(
        facts,
        d,
        l,
        after.kernel_id,
        n,
    ) by {
        if d != c {
            assert(llc.cores.contains_key(d));
        }
    }
    assert forall|d: usize, u: usize| #[trigger] after.has_cpu(d, u) == (llc.has_cpu(d, u) || (d == c && u
        == cpu)) by {
        if u == cpu && d != c && llc.has_cpu(d, u) {
            assert(llc.span.cpus.contains(u));
        }
        if d == c && u != cpu {
            assert(core.cpus.contains_key(u) <==> llc.has_cpu(c, u));
        }
    }
    assert forall|u: usize| #[trigger] after.span.cpus.contains(u) implies exists|d: usize|
        after.has_cpu(d, u) by {
        if u == cpu {
            assert(after.has_cpu(c, u));
        } else {
            assert(llc.span.cpus.contains(u));
            let d = choose|d: usize| llc.has_cpu(d, u);
            assert(after.has_cpu(d, u));
        }
    }
    assert forall|d: usize, u: usize| #[trigger] after.has_cpu(d, u) implies after.span.cpus.contains(
        u,
    ) by {
        if llc.has_cpu(d, u) {
            assert(llc.span.cpus.contains(u));
        }
    }
    assert forall|d: usize, e: usize, u: usize| #[trigger]
        after.has_cpu(d, u) && #[trigger] after.has_cpu(e, u) implies d == e by {
        if u == cpu {
            assert(!llc.has_cpu(d, u)) by {
                if llc.has_cpu(d, u) {
                    assert(llc.span.cpus.contains(u));
                }
            }
            assert(!llc.has_cpu(e, u)) by {
                if llc.has_cpu(e, u) {
                    assert(llc.span.cpus.contains(u));
                }
            }
        } else {
            assert(llc.has_cpu(d, u) && llc.has_cpu(e, u));
        }
    }
}

/// A node stays sound with one CPU more that it did not have.
proof fn lemma_node_grows(
    facts: Facts,
    node: NodeView,
    llc: LlcView,
    after: NodeView,
    l: usize,
    cpu: usize,
)
    requires
        node.sound(facts, node.id),
        !node.span.cpus.contains(cpu),
        llc.sound(facts, l, node.id),
        llc.span.cpus.contains(cpu),
        forall|u: usize| u != cpu ==> (#[trigger] llc.span.cpus.contains(u) <==> node.spans(l, u)),
        after == (NodeView {
            llcs: node.llcs.insert(l, llc),
            span: node.span.with(cpu),
            ..node
        }),
    ensures
        after.sound(facts, node.id),
{
    assert(after.llcs.dom() =~= node.llcs.dom().insert(l));
    assert forall|m: usize| #[trigger] after.llcs.contains_key(m) implies after.llcs[m].sound(
        facts,
        m,
        node.id,
    ) by {
        if m != l {
            assert(node.llcs.contains_key(m));
        }
    }
    assert forall|m: usize, u: usize| #[trigger] after.spans(m, u) == (node.spans(m, u) || (m == l && u
        == cpu)) by {
        if u == cpu && m != l && node.spans(m, u) {
            assert(node.span.cpus.contains(u));
        }
        if m == l && u != cpu {
            assert(llc.span.cpus.contains(u) <==> node.spans(l, u));
        }
    }
    assert forall|u: usize| #[trigger] after.span.cpus.contains(u) implies exists|m: usize|
        after.spans(m, u) by {
        if u == cpu {
            assert(after.spans(l, u));
        } else {
            assert(node.span.cpus.contains(u));
            let m = choose|m: usize| node.spans(m, u);
            assert(after.spans(m, u));
        }
    }
    assert forall|m: usize, u: usize| #[trigger] after.spans(m, u) implies after.span.cpus.contains(
        u,
    ) by {
        if node.spans(m, u) {
            assert(node.span.cpus.contains(u));
        }
    }
    assert forall|m: usize, k: usize, u: usize| #[trigger]
        after.spans(m, u) && #[trigger] after.spans(k, u) implies m == k by {
        if u == cpu {
            assert(!node.spans(m, u)) by {
                if node.spans(m, u) {
                    assert(node.span.cpus.contains(u));
                }
            }
            assert(!node.spans(k, u)) by {
                if node.spans(k, u) {
                    assert(node.span.cpus.contains(u));
                }
            }
        } else {
            assert(node.spans(m, u) && node.spans(k, u));
        }
    }
}

/// A node stays sound when a CPU is inserted.
pub proof fn law_insert_keeps_sound(build: Build, facts: Facts, cpu: usize)
    requires
        build.sound(facts),
        build.refusal(facts, cpu) is None,
        build.inserted(facts, cpu).ctx.countable(),
    ensures
        build.inserted(facts, cpu).sound(facts),
{
    if facts.online.cpus.contains(cpu) {
        let node = build.node;
        let n = node.id;
        let core_kernel_id = facts.of(cpu).core_id.unwrap();
        let llc_key = (n, facts.llc_kernel_id(cpu));
        let core_key = (n, core_kernel_id);
        let l = builder::id_for(build.ctx.llcs, llc_key);
        let c = builder::id_for(build.ctx.cores, core_key);
        let llc = build.llc_at(facts, l, cpu);
        let core = build.core_at(facts, llc, l, c, core_kernel_id, cpu);
        let after = build.inserted(facts, cpu);
        let new_llc = after.node.llcs[l];
        let new_core = new_llc.cores[c];
        law_ids_increase(build.ctx.llcs, llc_key);
        law_ids_increase(build.ctx.cores, core_key);
        assert(llc.kernel_id == facts.llc_kernel_id(cpu)) by {
            if node.llcs.contains_key(l) {
                assert(build.ctx.llcs.contains_key((n, llc.kernel_id)));
                assert(build.ctx.llcs[(n, llc.kernel_id)] == l);
                assert(build.ctx.llcs.contains_key(llc_key));
            }
        }
        assert(core.kernel_id == core_kernel_id) by {
            if llc.cores.contains_key(c) {
                assert(node.llcs.contains_key(l));
                assert(build.ctx.cores.contains_key((n, core.kernel_id)));
                assert(build.ctx.cores[(n, core.kernel_id)] == c);
                assert(build.ctx.cores.contains_key(core_key));
            }
        }
        assert(!llc.span.cpus.contains(cpu)) by {
            if node.spans(l, cpu) {
                assert(node.span.cpus.contains(cpu));
            }
        }
        lemma_core_grows(facts, core, new_core, c, l, llc.kernel_id, n, cpu);
        assert forall|u: usize| u != cpu implies (#[trigger] new_core.cpus.contains_key(u)
            <==> llc.has_cpu(c, u)) by {}
        lemma_llc_grows(facts, llc, new_core, new_llc, c, l, n, cpu);
        assert forall|u: usize| u != cpu implies (#[trigger] new_llc.span.cpus.contains(u)
            <==> node.spans(l, u)) by {}
        lemma_node_grows(facts, node, new_llc, after.node, l, cpu);
        assert(after.ctx.names(after.node)) by {
            assert forall|m: usize| #[trigger] after.node.llcs.contains_key(m) implies {
                let k = after.node.llcs[m];
                &&& after.ctx.llcs.contains_key((n, k.kernel_id))
                &&& after.ctx.llcs[(n, k.kernel_id)] == m
                &&& forall|d: usize| #[trigger]
                    k.cores.contains_key(d) ==> {
                        &&& after.ctx.cores.contains_key((n, k.cores[d].kernel_id))
                        &&& after.ctx.cores[(n, k.cores[d].kernel_id)] == d
                    }
            } by {
                if m != l {
                    assert(node.llcs.contains_key(m));
                } else {
                    assert forall|d: usize| #[trigger] new_llc.cores.contains_key(d) implies {
                        &&& after.ctx.cores.contains_key((n, new_llc.cores[d].kernel_id))
                        &&& after.ctx.cores[(n, new_llc.cores[d].kernel_id)] == d
                    } by {
                        if d != c {
                            assert(llc.cores.contains_key(d));
                            assert(node.llcs.contains_key(l));
                        }
                    }
                }
            }
        }
    }
}

/// Whether `after` has all IDs that `before` has, and new ones for `n` alone.
pub open spec fn ids_grow(
    before: Map<(usize, usize), usize>,
    after: Map<(usize, usize), usize>,
    n: usize,
) -> bool {
    &&& before.len() <= after.len()
    &&& forall|k: (usize, usize)| #[trigger]
        before.contains_key(k) ==> after.contains_key(k) && after[k] == before[k]
    &&& forall|k: (usize, usize)| #[trigger]
        after.contains_key(k) && k.0 != n ==> before.contains_key(k)
}

impl TopoCtxView {
    pub open spec fn finite(self) -> bool {
        self.cores.dom().finite() && self.llcs.dom().finite()
    }

    /// Whether `after` has all IDs that this context has, and new ones for the node
    /// `n` alone.
    pub open spec fn grows(self, after: TopoCtxView, n: usize) -> bool {
        &&& ids_grow(self.cores, after.cores, n)
        &&& ids_grow(self.llcs, after.llcs, n)
    }
}

impl Build {
    /// Whether `after` is the same node with more CPUs in it.
    pub open spec fn grows(self, after: Build) -> bool {
        &&& after.node.id == self.node.id
        &&& after.node.gpus == self.node.gpus
        &&& after.ctx.finite()
        &&& self.ctx.grows(after.ctx, self.node.id)
    }
}

proof fn lemma_with_id_grows(ids: Map<(usize, usize), usize>, key: (usize, usize))
    requires
        ids.dom().finite(),
    ensures
        builder::with_id(ids, key).dom().finite(),
        ids_grow(ids, builder::with_id(ids, key), key.0),
{
    let after = builder::with_id(ids, key);
    if ids.contains_key(key) {
        assert(after =~= ids);
    } else {
        assert(after.dom() =~= ids.dom().insert(key));
    }
}

pub(crate) proof fn lemma_insert_grows(build: Build, facts: Facts, cpu: usize)
    requires
        build.ctx.finite(),
    ensures
        build.grows(build.inserted(facts, cpu)),
        build.refusal(facts, cpu) is None ==> build.inserted(facts, cpu).node.span.cpus
            == if facts.online.cpus.contains(cpu) {
            build.node.span.cpus.insert(cpu)
        } else {
            build.node.span.cpus
        },
{
    if facts.online.cpus.contains(cpu) && facts.of(cpu).core_id is Some {
        let n = build.node.id;
        let core_kernel_id = facts.of(cpu).core_id.unwrap();
        let llc_key = (n, facts.llc_kernel_id(cpu));
        let core_key = (n, core_kernel_id);
        lemma_with_id_grows(build.ctx.llcs, llc_key);
        lemma_with_id_grows(build.ctx.cores, core_key);
    }
}

/// The CPUs among `items` that are online.
pub open spec fn online_items(
    facts: Facts,
    items: Seq<Result<usize, ErrorView>>,
) -> Set<usize> {
    Set::new(
        |u: usize| facts.online.cpus.contains(u) && items.contains(Ok::<usize, ErrorView>(u)),
    )
}

proof fn lemma_items_step(facts: Facts, items: Seq<Result<usize, ErrorView>>)
    requires
        items.len() > 0,
        items.last() is Ok,
    ensures
        online_items(facts, items) == if facts.online.cpus.contains(items.last()->Ok_0) {
            online_items(facts, items.drop_last()).insert(items.last()->Ok_0)
        } else {
            online_items(facts, items.drop_last())
        },
{
    let cpu = items.last()->Ok_0;
    let head = items.drop_last();
    assert forall|u: usize| items.contains(Ok::<usize, ErrorView>(u)) == (head.contains(
        Ok::<usize, ErrorView>(u),
    ) || u == cpu) by {
        let item = Ok::<usize, ErrorView>(u);
        if items.contains(item) {
            let i = choose|i: int| 0 <= i < items.len() && items[i] == item;
            if i < head.len() {
                assert(head[i] == item);
            }
        }
        if head.contains(item) {
            let i = choose|i: int| 0 <= i < head.len() && head[i] == item;
            assert(items[i] == item);
        }
        assert(items[items.len() - 1] == Ok::<usize, ErrorView>(cpu));
    }
    assert(online_items(facts, items) =~= if facts.online.cpus.contains(cpu) {
        online_items(facts, head).insert(cpu)
    } else {
        online_items(facts, head)
    });
}

pub(crate) proof fn lemma_filled_grows(build: Build, facts: Facts, items: Seq<Result<usize, ErrorView>>)
    requires
        build.ctx.finite(),
    ensures
        build.grows(build.filled(facts, items).0),
        build.filled(facts, items).1 is None ==> build.filled(facts, items).0.node.span.cpus
            == build.node.span.cpus.union(online_items(facts, items)),
    decreases items.len(),
{
    if items.len() == 0 {
        assert(build.node.span.cpus.union(online_items(facts, items)) =~= build.node.span.cpus);
    } else {
        lemma_filled_grows(build, facts, items.drop_last());
        let (before, error) = build.filled(facts, items.drop_last());
        if error is None && items.last() is Ok {
            lemma_insert_grows(before, facts, items.last()->Ok_0);
            lemma_items_step(facts, items);
            assert(build.filled(facts, items).1 is None ==> build.filled(
                facts,
                items,
            ).0.node.span.cpus =~= build.node.span.cpus.union(online_items(facts, items)));
        }
    }
}

/// Whether one of the CPUs has the core with the given kernel ID.
pub open spec fn names_core(facts: Facts, cpus: Set<usize>, kernel_id: usize) -> bool {
    exists|u: usize| #[trigger] cpus.contains(u) && facts.of(u).core_id == Some(kernel_id)
}

/// Whether one of the CPUs has the LLC with the given kernel ID.
pub open spec fn names_llc(facts: Facts, cpus: Set<usize>, kernel_id: usize) -> bool {
    exists|u: usize| #[trigger] cpus.contains(u) && facts.llc_kernel_id(u) == kernel_id
}

/// The IDs that are given out while a node is filled are those for the cores and the
/// LLCs of the online CPUs among the items.
proof fn lemma_filled_keys(build: Build, facts: Facts, items: Seq<Result<usize, ErrorView>>)
    requires
        build.filled(facts, items).1 is None,
    ensures
        build.filled(facts, items).0.node.id == build.node.id,
        forall|k: (usize, usize)| #[trigger]
            build.filled(facts, items).0.ctx.cores.contains_key(k) <==> build.ctx.cores.contains_key(
                k,
            ) || (k.0 == build.node.id && names_core(facts, online_items(facts, items), k.1)),
        forall|k: (usize, usize)| #[trigger]
            build.filled(facts, items).0.ctx.llcs.contains_key(k) <==> build.ctx.llcs.contains_key(k)
                || (k.0 == build.node.id && names_llc(facts, online_items(facts, items), k.1)),
    decreases items.len(),
{
    let after = build.filled(facts, items).0;
    if items.len() > 0 {
        let head = items.drop_last();
        let before = build.filled(facts, head).0;
        let cpu = items.last()->Ok_0;
        let cpus = online_items(facts, items);
        let fewer = online_items(facts, head);
        lemma_filled_keys(build, facts, head);
        lemma_items_step(facts, items);
        assert forall|k: (usize, usize)| #[trigger]
            after.ctx.cores.contains_key(k) <==> build.ctx.cores.contains_key(k) || (k.0
            == build.node.id && names_core(facts, cpus, k.1)) by {
            if names_core(facts, fewer, k.1) {
                let u = choose|u: usize| #[trigger]
                    fewer.contains(u) && facts.of(u).core_id == Some(k.1);
                assert(cpus.contains(u));
            }
            if names_core(facts, cpus, k.1) {
                let u = choose|u: usize| #[trigger]
                    cpus.contains(u) && facts.of(u).core_id == Some(k.1);
                assert(u == cpu || fewer.contains(u));
            }
            if facts.online.cpus.contains(cpu) {
                assert(cpus.contains(cpu));
            }
        }
        assert forall|k: (usize, usize)| #[trigger]
            after.ctx.llcs.contains_key(k) <==> build.ctx.llcs.contains_key(k) || (k.0
            == build.node.id && names_llc(facts, cpus, k.1)) by {
            if names_llc(facts, fewer, k.1) {
                let u = choose|u: usize| #[trigger]
                    fewer.contains(u) && facts.llc_kernel_id(u) == k.1;
                assert(cpus.contains(u));
            }
            if names_llc(facts, cpus, k.1) {
                let u = choose|u: usize| #[trigger]
                    cpus.contains(u) && facts.llc_kernel_id(u) == k.1;
                assert(u == cpu || fewer.contains(u));
            }
            if facts.online.cpus.contains(cpu) {
                assert(cpus.contains(cpu));
            }
        }
    }
}

/// A node stays sound when CPUs are inserted one after the other.
pub proof fn law_fill_keeps_sound(
    build: Build,
    facts: Facts,
    items: Seq<Result<usize, ErrorView>>,
)
    requires
        build.sound(facts),
        build.filled(facts, items).1 is None,
        build.filled(facts, items).0.ctx.countable(),
    ensures
        build.filled(facts, items).0.sound(facts),
    decreases items.len(),
{
    if items.len() > 0 {
        let (before, error) = build.filled(facts, items.drop_last());
        lemma_filled_grows(build, facts, items.drop_last());
        lemma_insert_grows(before, facts, items.last()->Ok_0);
        law_fill_keeps_sound(build, facts, items.drop_last());
        law_insert_keeps_sound(before, facts, items.last()->Ok_0);
    }
}

/// Whether all nodes are what `facts` say, and their IDs are those that were given
/// out.
pub open spec fn nodes_sound(nodes: Map<usize, NodeView>, ctx: TopoCtxView, facts: Facts) -> bool {
    &&& ctx.sound()
    &&& nodes.dom().finite()
    &&& forall|n: usize| #[trigger]
        nodes.contains_key(n) ==> nodes[n].sound(facts, n) && ctx.names(nodes[n])
}

/// A node that was filled from nothing is sound, and spans the online CPUs among the
/// items.
proof fn lemma_filled_node(
    start: Build,
    n: usize,
    gpus: Map<GpuIndex, Gpu>,
    facts: Facts,
    items: Seq<Result<usize, ErrorView>>,
)
    requires
        start.node == builder::empty_node(n, facts.online.nr_cpu_ids, gpus),
        start.ctx.sound(),
        start.filled(facts, items).1 is None,
        start.filled(facts, items).0.ctx.countable(),
    ensures
        start.filled(facts, items).0.sound(facts),
        start.grows(start.filled(facts, items).0),
        start.filled(facts, items).0.node.span.cpus == online_items(facts, items),
{
    lemma_filled_grows(start, facts, items);
    law_fill_keeps_sound(start, facts, items);
    assert(start.filled(facts, items).0.node.span.cpus =~= online_items(facts, items));
}

pub(crate) proof fn lemma_numa_finite(
    sys: Sysfs,
    dirs: Seq<NodeDir>,
    online: CpumaskView,
    ctx: TopoCtxView,
)
    requires
        ctx.finite(),
    ensures
        builder::numa_nodes(sys, dirs, online, ctx).ctx.finite(),
    decreases dirs.len(),
{
    if dirs.len() > 0 {
        lemma_numa_finite(sys, dirs.drop_last(), online, ctx);
        let before = builder::numa_nodes(sys, dirs.drop_last(), online, ctx);
        if before.error is None {
            match sysfs::node_dir_id(dirs.last().path@) {
                None => {},
                Some(n) => {
                    let node = builder::empty_node(
                        n,
                        online.nr_cpu_ids,
                        builder::gpus_of_node(sys.gpus@, n),
                    );
                    lemma_filled_grows(
                        Build { node, ctx: before.ctx },
                        builder::facts_of(sys, online, false),
                        builder::node_items(dirs.last()),
                    );
                },
            }
        }
    }
}

/// Whether `dirs[i]` is the last of the directories for the node `n`.
pub open spec fn last_dir_of(dirs: Seq<NodeDir>, i: int, n: usize) -> bool {
    &&& 0 <= i < dirs.len()
    &&& sysfs::node_dir_id(dirs[i].path@) == Some(n)
    &&& forall|j: int|
        i < j < dirs.len() ==> sysfs::node_dir_id(#[trigger] dirs[j].path@) != Some(n)
}

/// Whether `dirs[i]` is a directory for the node `n`.
pub open spec fn dir_of(dirs: Seq<NodeDir>, i: int, n: usize) -> bool {
    0 <= i < dirs.len() && sysfs::node_dir_id(dirs[i].path@) == Some(n)
}

pub(crate) proof fn lemma_numa(sys: Sysfs, dirs: Seq<NodeDir>, online: CpumaskView)
    requires
        builder::numa_nodes(sys, dirs, online, TopoCtxView::none()).error is None,
        builder::numa_nodes(sys, dirs, online, TopoCtxView::none()).ctx.countable(),
    ensures
        ({
            let made = builder::numa_nodes(sys, dirs, online, TopoCtxView::none());
            let facts = builder::facts_of(sys, online, false);
            &&& nodes_sound(made.nodes, made.ctx, facts)
            &&& forall|n: usize| #[trigger]
                made.nodes.contains_key(n) ==> exists|i: int| #[trigger]
                    last_dir_of(dirs, i, n)
            &&& forall|i: int, n: usize| #[trigger]
                last_dir_of(dirs, i, n) ==> {
                    &&& made.nodes.contains_key(n)
                    &&& made.nodes[n].span.cpus == online_items(facts, builder::node_items(dirs[i]))
                    &&& made.nodes[n].gpus == builder::gpus_of_node(sys.gpus@, n)
                }
            &&& forall|i: int|
                0 <= i < dirs.len() ==> sysfs::node_dir_id(#[trigger] dirs[i].path@) is Some
            &&& forall|k: (usize, usize)| #[trigger]
                made.ctx.cores.contains_key(k) <==> exists|i: int| #[trigger]
                    dir_of(dirs, i, k.0) && names_core(
                        facts,
                        online_items(facts, builder::node_items(dirs[i])),
                        k.1,
                    )
            &&& forall|k: (usize, usize)| #[trigger]
                made.ctx.llcs.contains_key(k) <==> exists|i: int| #[trigger]
                    dir_of(dirs, i, k.0) && names_llc(
                        facts,
                        online_items(facts, builder::node_items(dirs[i])),
                        k.1,
                    )
        }),
    decreases dirs.len(),
{
    let facts = builder::facts_of(sys, online, false);
    let made = builder::numa_nodes(sys, dirs, online, TopoCtxView::none());
    if dirs.len() > 0 {
        let head = dirs.drop_last();
        let before = builder::numa_nodes(sys, head, online, TopoCtxView::none());
        let n = sysfs::node_dir_id(dirs.last().path@).unwrap();
        let gpus = builder::gpus_of_node(sys.gpus@, n);
        let node = builder::empty_node(n, online.nr_cpu_ids, gpus);
        let start = Build { node, ctx: before.ctx };
        let items = builder::node_items(dirs.last());
        let after = start.filled(facts, items).0;
        lemma_numa_finite(sys, head, online, TopoCtxView::none());
        lemma_filled_grows(start, facts, items);
        lemma_numa(sys, head, online);
        lemma_filled_node(start, n, gpus, facts, items);
        assert(made.nodes.dom() =~= before.nodes.dom().insert(n));
        assert forall|i: int| 0 <= i < head.len() implies head[i] == #[trigger] dirs[i] by {}
        assert forall|m: usize| #[trigger] made.nodes.contains_key(m) implies made.nodes[m].sound(
            facts,
            m,
        ) && made.ctx.names(made.nodes[m]) by {
            if m != n {
                assert(before.nodes.contains_key(m));
                assert(before.ctx.names(before.nodes[m]));
            }
        }
        assert(last_dir_of(dirs, dirs.len() - 1, n));
        assert forall|i: int, m: usize| m != n implies #[trigger] last_dir_of(dirs, i, m)
            == last_dir_of(head, i, m) by {
            if last_dir_of(dirs, i, m) {
                assert(dirs[i] == head[i]);
                assert forall|j: int| i < j < head.len() implies sysfs::node_dir_id(
                    #[trigger] head[j].path@,
                ) != Some(m) by {
                    assert(head[j] == dirs[j]);
                    assert(sysfs::node_dir_id(dirs[j].path@) != Some(m));
                }
            }
            if last_dir_of(head, i, m) {
                assert(dirs[i] == head[i]);
                assert forall|j: int| i < j < dirs.len() implies sysfs::node_dir_id(
                    #[trigger] dirs[j].path@,
                ) != Some(m) by {
                    if j < head.len() {
                        assert(head[j] == dirs[j]);
                        assert(sysfs::node_dir_id(head[j].path@) != Some(m));
                    }
                }
            }
        }
        assert forall|m: usize| #[trigger] made.nodes.contains_key(m) implies exists|i: int|
            #[trigger] last_dir_of(dirs, i, m) by {
            if m != n {
                assert(before.nodes.contains_key(m));
                let i = choose|i: int| #[trigger] last_dir_of(head, i, m);
                assert(last_dir_of(dirs, i, m));
            }
        }
        assert forall|i: int, m: usize| #[trigger] last_dir_of(dirs, i, m) implies {
            &&& made.nodes.contains_key(m)
            &&& made.nodes[m].span.cpus == online_items(facts, builder::node_items(dirs[i]))
            &&& made.nodes[m].gpus == builder::gpus_of_node(sys.gpus@, m)
        } by {
            if m == n {
                assert(sysfs::node_dir_id(dirs[dirs.len() - 1].path@) == Some(m));
                assert(i == dirs.len() - 1);
            } else {
                assert(last_dir_of(head, i, m));
                assert(head[i] == dirs[i]);
            }
        }
        assert forall|i: int| 0 <= i < dirs.len() implies sysfs::node_dir_id(
            #[trigger] dirs[i].path@,
        ) is Some by {
            if i < head.len() {
                assert(head[i] == dirs[i]);
                assert(sysfs::node_dir_id(head[i].path@) is Some);
            }
        }
        lemma_filled_keys(start, facts, items);
        assert(dir_of(dirs, dirs.len() - 1, n));
        assert forall|i: int, m: usize| #[trigger] dir_of(dirs, i, m) implies dir_of(head, i, m)
            || (i == dirs.len() - 1 && m == n) by {
            if i < head.len() {
                assert(head[i] == dirs[i]);
            }
        }
        assert forall|i: int, m: usize| #[trigger] dir_of(head, i, m) implies dir_of(dirs, i, m)
            && head[i] == dirs[i] by {
            assert(head[i] == dirs[i]);
        }
        assert forall|k: (usize, usize)| #[trigger]
            made.ctx.cores.contains_key(k) <==> exists|i: int| #[trigger]
            dir_of(dirs, i, k.0) && names_core(
                facts,
                online_items(facts, builder::node_items(dirs[i])),
                k.1,
            ) by {
            if before.ctx.cores.contains_key(k) {
                let i = choose|i: int| #[trigger]
                    dir_of(head, i, k.0) && names_core(
                        facts,
                        online_items(facts, builder::node_items(head[i])),
                        k.1,
                    );
                assert(dir_of(dirs, i, k.0));
            }
            if exists|i: int| #[trigger]
                dir_of(dirs, i, k.0) && names_core(
                    facts,
                    online_items(facts, builder::node_items(dirs[i])),
                    k.1,
                ) {
                let i = choose|i: int| #[trigger]
                    dir_of(dirs, i, k.0) && names_core(
                        facts,
                        online_items(facts, builder::node_items(dirs[i])),
                        k.1,
                    );
                if dir_of(head, i, k.0) {
                    assert(before.ctx.cores.contains_key(k));
                }
            }
        }
        assert forall|k: (usize, usize)| #[trigger]
            made.ctx.llcs.contains_key(k) <==> exists|i: int| #[trigger]
            dir_of(dirs, i, k.0) && names_llc(
                facts,
                online_items(facts, builder::node_items(dirs[i])),
                k.1,
            ) by {
            if before.ctx.llcs.contains_key(k) {
                let i = choose|i: int| #[trigger]
                    dir_of(head, i, k.0) && names_llc(
                        facts,
                        online_items(facts, builder::node_items(head[i])),
                        k.1,
                    );
                assert(dir_of(dirs, i, k.0));
            }
            if exists|i: int| #[trigger]
                dir_of(dirs, i, k.0) && names_llc(
                    facts,
                    online_items(facts, builder::node_items(dirs[i])),
                    k.1,
                ) {
                let i = choose|i: int| #[trigger]
                    dir_of(dirs, i, k.0) && names_llc(
                        facts,
                        online_items(facts, builder::node_items(dirs[i])),
                        k.1,
                    );
                if dir_of(head, i, k.0) {
                    assert(before.ctx.llcs.contains_key(k));
                }
            }
        }
    }
}

pub(crate) proof fn lemma_default(sys: Sysfs, online: CpumaskView, flattened: bool)
    requires
        builder::default_node(sys, online, TopoCtxView::none(), flattened).error is None,
        builder::default_node(sys, online, TopoCtxView::none(), flattened).ctx.countable(),
    ensures
        ({
            let made = builder::default_node(sys, online, TopoCtxView::none(), flattened);
            let facts = builder::facts_of(sys, online, flattened);
            &&& sysfs::cpu_ids(sys.cpu_dirs@) is Ok
            &&& nodes_sound(made.nodes, made.ctx, facts)
            &&& made.nodes.dom() == set![0usize]
            &&& forall|k: (usize, usize)| #[trigger]
                made.ctx.cores.contains_key(k) <==> k.0 == 0 && names_core(
                    facts,
                    made.nodes[0].span.cpus,
                    k.1,
                )
            &&& forall|k: (usize, usize)| #[trigger]
                made.ctx.llcs.contains_key(k) <==> k.0 == 0 && names_llc(
                    facts,
                    made.nodes[0].span.cpus,
                    k.1,
                )
            &&& made.nodes[0].span.cpus == online_items(
                facts,
                builder::ids_as_items(sysfs::cpu_ids(sys.cpu_dirs@)->Ok_0),
            )
            &&& made.nodes[0].gpus == builder::gpus_of_node(sys.gpus@, 0)
        }),
{
    let facts = builder::facts_of(sys, online, flattened);
    let made = builder::default_node(sys, online, TopoCtxView::none(), flattened);
    let items = builder::ids_as_items(sysfs::cpu_ids(sys.cpu_dirs@)->Ok_0);
    let gpus = builder::gpus_of_node(sys.gpus@, 0);
    let node = builder::empty_node(0, online.nr_cpu_ids, gpus);
    let start = Build { node, ctx: TopoCtxView::none() };
    lemma_filled_node(start, 0, gpus, facts, items);
    lemma_filled_keys(start, facts, items);
    assert(made.nodes.dom() =~= set![0usize]);
}

proof fn lemma_flat_llc(facts: Facts, node: NodeView, n: usize, l: usize)
    requires
        facts.flatten_llc,
        node.sound(facts, n),
        node.llcs.contains_key(l),
    ensures
        node.llcs[l].kernel_id == 0,
{
    let llc = node.llcs[l];
    assert(llc.sound(facts, l, n));
    let c = choose|c: usize| #[trigger] llc.cores.contains_key(c);
    let core = llc.cores[c];
    assert(core.sound(facts, c, l, llc.kernel_id, n));
    let u = choose|u: usize| #[trigger]
        core.cpus.contains_key(u) && facts.core_type(u) == core.core_type;
    assert(facts.llc_kernel_id(u) == llc.kernel_id);
}

/// Flattened, the default node has no LLC but the LLC 0, which stands for the kernel
/// ID 0.
pub(crate) proof fn lemma_flattened(sys: Sysfs, online: CpumaskView)
    requires
        builder::default_node(sys, online, TopoCtxView::none(), true).error is None,
        builder::default_node(sys, online, TopoCtxView::none(), true).ctx.countable(),
    ensures
        forall|l: usize| #[trigger]
            builder::default_node(sys, online, TopoCtxView::none(), true).nodes[0].llcs.contains_key(
                l,
            ) ==> l == 0 && builder::default_node(
                sys,
                online,
                TopoCtxView::none(),
                true,
            ).nodes[0].llcs[l].kernel_id == 0,
{
    let facts = builder::facts_of(sys, online, true);
    let made = builder::default_node(sys, online, TopoCtxView::none(), true);
    lemma_default(sys, online, true);
    let node = made.nodes[0];
    let ids = made.ctx.llcs;
    assert(made.nodes.contains_key(0));
    assert(made.ctx.names(node));
    assert forall|k: (usize, usize)| #[trigger] ids.contains_key(k) implies k == (0usize, 0usize) by {
        assert(names_llc(facts, node.span.cpus, k.1));
    }
    assert forall|l: usize| #[trigger] node.llcs.contains_key(l) implies l == 0
        && node.llcs[l].kernel_id == 0 by {
        lemma_flat_llc(facts, node, 0, l);
        assert(ids.contains_key((0usize, 0usize)) && ids[(0usize, 0usize)] == l);
        assert(ids.dom() =~= set![(0usize, 0usize)]);
    }
}

/// A sound node has finitely many members.
pub(crate) proof fn lemma_sound_is_finite(node: NodeView, facts: Facts, n: usize)
    requires
        node.sound(facts, n),
    ensures
        node.finite(),
{
    assert forall|l: usize| #[trigger] node.llcs.contains_key(l) implies node.llcs[l].finite() by {
        let llc = node.llcs[l];
        assert(llc.sound(facts, l, n));
        assert forall|c: usize| #[trigger] llc.cores.contains_key(c) implies llc.cores[c].finite() by {
            assert(llc.cores[c].sound(facts, c, l, llc.kernel_id, n));
        }
    }
}

/// A CPU that a sound node spans is in a core of it.
pub(crate) proof fn lemma_spanned_cpu(node: NodeView, facts: Facts, n: usize, u: usize) -> (place: (
    usize,
    usize,
))
    requires
        node.sound(facts, n),
        node.span.cpus.contains(u),
    ensures
        node.has_cpu(place.0, place.1, u),
{
    let l = choose|l: usize| node.spans(l, u);
    assert(node.spans(l, u));
    assert(node.llcs[l].sound(facts, l, n));
    let c = choose|c: usize| node.llcs[l].has_cpu(c, u);
    (l, c)
}

/// The LLC of a CPU in a sound node spans the CPU, and so does the node.
pub(crate) proof fn lemma_cpu_is_spanned(
    node: NodeView,
    facts: Facts,
    n: usize,
    l: usize,
    c: usize,
    u: usize,
)
    requires
        node.sound(facts, n),
        node.has_cpu(l, c, u),
    ensures
        node.spans(l, u),
        node.span.cpus.contains(u),
{
    assert(node.llcs[l].sound(facts, l, n));
    assert(node.llcs[l].has_cpu(c, u));
    assert(node.spans(l, u));
}

/// The nodes of a host are sound.
pub(crate) proof fn lemma_nodes(sys: Sysfs, online: CpumaskView, flattened: bool)
    requires
        topology::nodes_of(sys, online, flattened).error is None,
        topology::nodes_of(sys, online, flattened).ctx.countable(),
    ensures
        nodes_sound(
            topology::nodes_of(sys, online, flattened).nodes,
            topology::nodes_of(sys, online, flattened).ctx,
            builder::facts_of(sys, online, flattened),
        ),
{
    if !flattened && sys.has_node_dir {
        lemma_numa(sys, sys.node_dirs@, online);
    } else {
        lemma_default(sys, online, flattened);
    }
}

} // verus!
