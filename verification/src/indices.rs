//! What the skip indices of a topology hold.

use crate::cpumask::CpumaskView;
use crate::error::ErrorView;
use crate::hierarchy::{CoreView, LlcView, NodeView};
use crate::order;
use crate::topology;
use crate::topology::{Member, TopologyView};
use vstd::prelude::*;

verus! {

/// Among members of which none was seen, none clashes exactly where no member
/// comes up twice. Otherwise the clash is the first member that came up before.
pub proof fn law_first_clash(seen: Set<Member>, members: Seq<Member>)
    ensures
        topology::first_clash(seen, members) is None <==> members.no_duplicates() && (forall|i: int|
            0 <= i < members.len() ==> !seen.contains(#[trigger] members[i])),
        topology::first_clash(seen, members) matches Some(member) ==> exists|j: int|
            {
                &&& 0 <= j < members.len()
                &&& #[trigger] members[j] == member
                &&& seen.contains(member) || members.take(j).contains(member)
                &&& topology::first_clash(seen, members.take(j)) is None
            },
    decreases members.len(),
{
    if members.len() > 0 {
        let first = members[0];
        let rest = members.skip(1);
        if seen.contains(first) {
            assert(members.take(0) == Seq::<Member>::empty());
            assert(members[0] == first && topology::first_clash(seen, members.take(0)) is None);
        } else {
            law_first_clash(seen.insert(first), rest);
            assert forall|i: int| 1 <= i < members.len() implies #[trigger] members[i] == rest[i
                - 1] by {}
            match topology::first_clash(seen.insert(first), rest) {
                None => {
                    assert forall|i: int, j: int|
                        0 <= i < members.len() && 0 <= j < members.len() && i
                            != j implies members[i] != members[j] by {
                        if i > 0 && j > 0 {
                            assert(rest[i - 1] != rest[j - 1]);
                        } else if i == 0 {
                            assert(!seen.insert(first).contains(rest[j - 1]));
                        } else {
                            assert(!seen.insert(first).contains(rest[i - 1]));
                        }
                    }
                    assert forall|i: int| 0 <= i < members.len() implies !seen.contains(
                        #[trigger] members[i],
                    ) by {
                        if i > 0 {
                            assert(!seen.insert(first).contains(rest[i - 1]));
                        }
                    }
                },
                Some(member) => {
                    let j = choose|j: int|
                        {
                            &&& 0 <= j < rest.len()
                            &&& #[trigger] rest[j] == member
                            &&& seen.insert(first).contains(member) || rest.take(j).contains(member)
                            &&& topology::first_clash(seen.insert(first), rest.take(j)) is None
                        };
                    let prefix = members.take(j + 1);
                    assert(prefix.skip(1) == rest.take(j));
                    assert(prefix[0] == first);
                    assert(members[j + 1] == member);
                    if rest.take(j).contains(member) {
                        let i = choose|i: int| 0 <= i < j && rest.take(j)[i] == member;
                        assert(prefix[i + 1] == member);
                        assert(members[i + 1] == member && i + 1 != j + 1);
                    } else if member == first {
                        assert(prefix[0] == member);
                        assert(members[0] == member);
                    }
                    assert(topology::first_clash(seen, prefix) is None);
                    assert(seen.contains(member) || prefix.contains(member));
                },
            }
        }
    }
}

/// The parts of a chain that holds nothing twice hold nothing twice, and share
/// nothing.
pub(crate) proof fn lemma_chain(keys: Seq<usize>, part: spec_fn(usize) -> Seq<Member>)
    ensures
        forall|m: Member| #[trigger]
            topology::chain(keys, part).contains(m) <==> exists|i: int|
                0 <= i < keys.len() && part(#[trigger] keys[i]).contains(m),
        topology::chain(keys, part).no_duplicates() ==> {
            &&& forall|i: int| 0 <= i < keys.len() ==> part(#[trigger] keys[i]).no_duplicates()
            &&& forall|i: int, j: int, m: Member|
                0 <= i < keys.len() && 0 <= j < keys.len() && #[trigger] part(keys[i]).contains(m)
                    && #[trigger] part(keys[j]).contains(m) ==> i == j
        },
    decreases keys.len(),
{
    let whole = topology::chain(keys, part);
    if keys.len() > 0 {
        let head = keys.drop_last();
        let a = topology::chain(head, part);
        let b = part(keys.last());
        lemma_chain(head, part);
        assert forall|m: Member| #[trigger] whole.contains(m) == (a.contains(m) || b.contains(
            m,
        )) by {
            if a.contains(m) {
                let i = choose|i: int| 0 <= i < a.len() && a[i] == m;
                assert(whole[i] == m);
            }
            if b.contains(m) {
                let i = choose|i: int| 0 <= i < b.len() && b[i] == m;
                assert(whole[a.len() + i] == m);
            }
        }
        assert forall|m: Member| #[trigger] whole.contains(m) implies exists|i: int|
            0 <= i < keys.len() && part(#[trigger] keys[i]).contains(m) by {
            if a.contains(m) {
                let i = choose|i: int| 0 <= i < head.len() && part(#[trigger] head[i]).contains(m);
                assert(keys[i] == head[i]);
            } else {
                assert(part(keys[keys.len() - 1]).contains(m));
            }
        }
        assert forall|m: Member|
            (exists|i: int| 0 <= i < keys.len() && part(#[trigger] keys[i]).contains(
                m,
            )) implies #[trigger] whole.contains(m) by {
            let i = choose|i: int| 0 <= i < keys.len() && part(#[trigger] keys[i]).contains(m);
            if i < head.len() {
                assert(head[i] == keys[i]);
                assert(a.contains(m));
            }
        }
        if whole.no_duplicates() {
            assert forall|i: int, j: int| 0 <= i < a.len() && 0 <= j < a.len() && i != j implies a[i]
                != a[j] by {
                assert(whole[i] == a[i] && whole[j] == a[j]);
            }
            assert forall|i: int, j: int| 0 <= i < b.len() && 0 <= j < b.len() && i != j implies b[i]
                != b[j] by {
                assert(whole[a.len() + i] == b[i] && whole[a.len() + j] == b[j]);
            }
            assert forall|m: Member| a.contains(m) implies !b.contains(m) by {
                if b.contains(m) {
                    let i = choose|i: int| 0 <= i < a.len() && a[i] == m;
                    let j = choose|j: int| 0 <= j < b.len() && b[j] == m;
                    assert(whole[i] == whole[a.len() + j]);
                }
            }
            assert forall|i: int| 0 <= i < keys.len() implies part(
                #[trigger] keys[i],
            ).no_duplicates() by {
                if i < head.len() {
                    assert(head[i] == keys[i]);
                }
            }
            assert forall|i: int, j: int, m: Member|
                0 <= i < keys.len() && 0 <= j < keys.len() && #[trigger] part(keys[i]).contains(m)
                    && #[trigger] part(keys[j]).contains(m) implies i == j by {
                if i < head.len() {
                    assert(head[i] == keys[i]);
                    assert(part(head[i]).contains(m));
                    assert(a.contains(m));
                }
                if j < head.len() {
                    assert(head[j] == keys[j]);
                    assert(part(head[j]).contains(m));
                    assert(a.contains(m));
                }
            }
        }
    }
}

/// The members in the parts of two lists of keys are those of the first and then those of
/// the second, and those of a single key are those of its part.
pub proof fn law_chain_of_lists(
    a: Seq<usize>,
    b: Seq<usize>,
    k: usize,
    part: spec_fn(usize) -> Seq<Member>,
)
    ensures
        topology::chain(a + b, part) == topology::chain(a, part) + topology::chain(b, part),
        topology::chain(seq![k], part) == part(k),
    decreases b.len(),
{
    let one = seq![k];
    assert(one.drop_last() == Seq::<usize>::empty());
    assert(topology::chain(one.drop_last(), part) == Seq::<Member>::empty());
    assert(topology::chain(one, part) =~= part(k));
    if b.len() == 0 {
        assert(a + b == a);
        assert(topology::chain(a, part) + topology::chain(b, part) =~= topology::chain(a, part));
    } else {
        law_chain_of_lists(a, b.drop_last(), k, part);
        assert((a + b).drop_last() == a + b.drop_last());
        assert(topology::chain(a + b, part) =~= topology::chain(a, part) + topology::chain(
            b,
            part,
        ));
    }
}

/// The members of a core are its CPUs from the lowest to the highest and then the core. Those
/// of an LLC are those of its cores, from the lowest ID to the highest, and then the LLC.
/// Those of nodes are those of their LLCs in the same order.
pub proof fn law_members(
    core: CoreView,
    llc: LlcView,
    node: NodeView,
    nodes: Map<usize, NodeView>,
    id: usize,
    keys: Seq<usize>,
)
    requires
        forall|i: int, j: int| 0 <= i < j < keys.len() ==> keys[i] < keys[j],
    ensures
        (forall|u: usize| #[trigger] keys.contains(u) <==> core.cpus.contains_key(u)) ==> {
            &&& core.members(id).len() == keys.len() + 1
            &&& core.members(id).last() == Member::Core(id)
            &&& forall|i: int|
                0 <= i < keys.len() ==> #[trigger] core.members(id)[i] == Member::Cpu(keys[i])
        },
        (forall|c: usize| #[trigger] keys.contains(c) <==> llc.cores.contains_key(c))
            ==> llc.members(id) == topology::chain(
            keys,
            |c: usize| llc.cores[c].members(c),
        ).push(Member::Llc(id)),
        (forall|l: usize| #[trigger] keys.contains(l) <==> node.llcs.contains_key(l))
            ==> node.members() == topology::chain(keys, |l: usize| node.llcs[l].members(l)),
        (forall|n: usize| #[trigger] keys.contains(n) <==> nodes.contains_key(n))
            ==> topology::members_of(nodes) == topology::chain(keys, |n: usize| nodes[n].members()),
{
    assert(order::ascending(keys));
    order::lemma_sorted_is(keys);
    if forall|u: usize| #[trigger] keys.contains(u) <==> core.cpus.contains_key(u) {
        assert(keys.to_set() =~= core.cpus.dom());
    }
    if forall|c: usize| #[trigger] keys.contains(c) <==> llc.cores.contains_key(c) {
        assert(keys.to_set() =~= llc.cores.dom());
    }
    if forall|l: usize| #[trigger] keys.contains(l) <==> node.llcs.contains_key(l) {
        assert(keys.to_set() =~= node.llcs.dom());
    }
    if forall|n: usize| #[trigger] keys.contains(n) <==> nodes.contains_key(n) {
        assert(keys.to_set() =~= nodes.dom());
    }
}

/// Where no two parts share a key, the entries of all parts together are those of
/// each part.
proof fn lemma_gather<V>(keys: Seq<usize>, part: spec_fn(usize) -> Map<usize, V>)
    requires
        forall|i: int, j: int, u: usize|
            0 <= i < keys.len() && 0 <= j < keys.len() && #[trigger] part(keys[i]).contains_key(u)
                && #[trigger] part(keys[j]).contains_key(u) ==> i == j,
    ensures
        forall|u: usize| #[trigger]
            topology::gather(keys, part).contains_key(u) ==> exists|i: int|
                0 <= i < keys.len() && part(#[trigger] keys[i]).contains_key(u),
        forall|i: int, u: usize|
            0 <= i < keys.len() && #[trigger] part(keys[i]).contains_key(u) ==> {
                &&& topology::gather(keys, part).contains_key(u)
                &&& topology::gather(keys, part)[u] == part(keys[i])[u]
            },
    decreases keys.len(),
{
    if keys.len() > 0 {
        let head = keys.drop_last();
        assert forall|i: int| 0 <= i < head.len() implies head[i] == #[trigger] keys[i] by {}
        assert forall|i: int, j: int, u: usize|
            0 <= i < head.len() && 0 <= j < head.len() && #[trigger] part(head[i]).contains_key(u)
                && #[trigger] part(head[j]).contains_key(u) implies i == j by {
            assert(part(keys[i]).contains_key(u) && part(keys[j]).contains_key(u));
        }
        lemma_gather(head, part);
        assert forall|u: usize| #[trigger]
            topology::gather(keys, part).contains_key(u) implies exists|i: int|
            0 <= i < keys.len() && part(#[trigger] keys[i]).contains_key(u) by {
            if part(keys.last()).contains_key(u) {
                assert(part(keys[keys.len() - 1]).contains_key(u));
            } else {
                assert(topology::gather(head, part).contains_key(u));
                let i = choose|i: int|
                    0 <= i < head.len() && part(#[trigger] head[i]).contains_key(u);
                assert(part(keys[i]).contains_key(u));
            }
        }
        assert forall|i: int, u: usize|
            0 <= i < keys.len() && #[trigger] part(keys[i]).contains_key(u) implies {
            &&& topology::gather(keys, part).contains_key(u)
            &&& topology::gather(keys, part)[u] == part(keys[i])[u]
        } by {
            if i < head.len() {
                assert(part(head[i]).contains_key(u));
                if part(keys.last()).contains_key(u) {
                    assert(part(keys[keys.len() - 1]).contains_key(u));
                }
            }
        }
    }
}

/// The keys of all parts together are those of the parts.
pub(crate) proof fn lemma_gather_keys<V>(
    keys: Seq<usize>,
    part: spec_fn(usize) -> Map<usize, V>,
    u: usize,
)
    ensures
        topology::gather(keys, part).contains_key(u) <==> exists|i: int|
            0 <= i < keys.len() && part(#[trigger] keys[i]).contains_key(u),
    decreases keys.len(),
{
    if keys.len() > 0 {
        let head = keys.drop_last();
        lemma_gather_keys(head, part, u);
        if topology::gather(head, part).contains_key(u) {
            let i = choose|i: int| 0 <= i < head.len() && part(#[trigger] head[i]).contains_key(u);
            assert(part(keys[i]).contains_key(u));
        }
        if part(keys.last()).contains_key(u) {
            assert(part(keys[keys.len() - 1]).contains_key(u));
        }
        if exists|i: int| 0 <= i < keys.len() && part(#[trigger] keys[i]).contains_key(u) {
            let i = choose|i: int| 0 <= i < keys.len() && part(#[trigger] keys[i]).contains_key(u);
            if i < head.len() {
                assert(part(head[i]).contains_key(u));
            }
        }
    }
}

/// The entries of finitely many parts together are finitely many, where those of each
/// part are.
proof fn lemma_gather_finite<V>(keys: Seq<usize>, part: spec_fn(usize) -> Map<usize, V>)
    requires
        forall|i: int| 0 <= i < keys.len() ==> part(#[trigger] keys[i]).dom().finite(),
    ensures
        topology::gather(keys, part).dom().finite(),
    decreases keys.len(),
{
    if keys.len() > 0 {
        let head = keys.drop_last();
        assert forall|i: int| 0 <= i < head.len() implies part(
            #[trigger] head[i],
        ).dom().finite() by {
            assert(head[i] == keys[i]);
            assert(part(keys[i]).dom().finite());
        }
        lemma_gather_finite(head, part);
        assert(part(keys[keys.len() - 1]).dom().finite());
        assert(topology::gather(keys, part).dom() =~= topology::gather(head, part).dom().union(
            part(keys.last()).dom(),
        ));
    }
}

proof fn lemma_parts_finite<V>(set: Set<usize>, part: spec_fn(usize) -> Map<usize, V>)
    requires
        set.finite(),
        forall|k: usize| set.contains(k) ==> #[trigger] part(k).dom().finite(),
    ensures
        topology::gather(order::sorted(set), part).dom().finite(),
{
    let keys = order::sorted(set);
    order::lemma_sorted(set);
    assert forall|i: int| 0 <= i < keys.len() implies part(#[trigger] keys[i]).dom().finite() by {
        assert(keys.contains(keys[i]));
    }
    lemma_gather_finite(keys, part);
}

/// Where no member of the parts comes up twice, the entries of all parts together
/// are those of each part, and no two parts share a key.
proof fn lemma_parts<V>(
    set: Set<usize>,
    part: spec_fn(usize) -> Map<usize, V>,
    members: spec_fn(usize) -> Seq<Member>,
    name: spec_fn(usize) -> Member,
)
    requires
        set.finite(),
        topology::chain(order::sorted(set), members).no_duplicates(),
        forall|k: usize, u: usize|
            set.contains(k) && #[trigger] part(k).contains_key(u) ==> members(k).contains(name(u)),
    ensures
        forall|u: usize| #[trigger]
            topology::gather(order::sorted(set), part).contains_key(u) ==> exists|k: usize|
                set.contains(k) && #[trigger] part(k).contains_key(u),
        forall|k: usize, u: usize|
            set.contains(k) && #[trigger] part(k).contains_key(u) ==> {
                &&& topology::gather(order::sorted(set), part).contains_key(u)
                &&& topology::gather(order::sorted(set), part)[u] == part(k)[u]
            },
        forall|j: usize, k: usize, u: usize|
            set.contains(j) && set.contains(k) && #[trigger] part(j).contains_key(u)
                && #[trigger] part(k).contains_key(u) ==> j == k,
{
    let keys = order::sorted(set);
    order::lemma_sorted(set);
    lemma_chain(keys, members);
    assert forall|i: int| 0 <= i < keys.len() implies set.contains(#[trigger] keys[i]) by {
        assert(keys.contains(keys[i]));
    }
    assert forall|i: int, j: int, u: usize|
        0 <= i < keys.len() && 0 <= j < keys.len() && #[trigger] part(keys[i]).contains_key(u)
            && #[trigger] part(keys[j]).contains_key(u) implies i == j by {
        assert(members(keys[i]).contains(name(u)));
        assert(members(keys[j]).contains(name(u)));
    }
    lemma_gather(keys, part);
    assert forall|j: usize, k: usize, u: usize|
        set.contains(j) && set.contains(k) && #[trigger] part(j).contains_key(u)
            && #[trigger] part(k).contains_key(u) implies j == k by {
        assert(keys.contains(j) && keys.contains(k));
        let a = choose|a: int| 0 <= a < keys.len() && keys[a] == j;
        let b = choose|b: int| 0 <= b < keys.len() && keys[b] == k;
        assert(part(keys[a]).contains_key(u) && part(keys[b]).contains_key(u));
    }
    assert forall|k: usize, u: usize|
        set.contains(k) && #[trigger] part(k).contains_key(u) implies {
        &&& topology::gather(keys, part).contains_key(u)
        &&& topology::gather(keys, part)[u] == part(k)[u]
    } by {
        assert(keys.contains(k));
        let a = choose|a: int| 0 <= a < keys.len() && keys[a] == k;
        assert(part(keys[a]).contains_key(u));
    }
}

/// The members of the parts are members of the chain, and come up once where those
/// of the chain do.
proof fn lemma_chain_of(set: Set<usize>, part: spec_fn(usize) -> Seq<Member>)
    requires
        set.finite(),
    ensures
        forall|k: usize, m: Member|
            set.contains(k) && #[trigger] part(k).contains(m) ==> topology::chain(
                order::sorted(set),
                part,
            ).contains(m),
        topology::chain(order::sorted(set), part).no_duplicates() ==> forall|k: usize|
            set.contains(k) ==> #[trigger] part(k).no_duplicates(),
{
    let keys = order::sorted(set);
    order::lemma_sorted(set);
    lemma_chain(keys, part);
    assert forall|k: usize, m: Member|
        set.contains(k) && #[trigger] part(k).contains(m) implies topology::chain(
        keys,
        part,
    ).contains(m) by {
        assert(keys.contains(k));
        let a = choose|a: int| 0 <= a < keys.len() && keys[a] == k;
        assert(part(keys[a]).contains(m));
    }
    assert forall|k: usize|
        topology::chain(keys, part).no_duplicates() && set.contains(k) implies #[trigger] part(
        k,
    ).no_duplicates() by {
        assert(keys.contains(k));
        let a = choose|a: int| 0 <= a < keys.len() && keys[a] == k;
        assert(part(keys[a]).no_duplicates());
    }
}

impl CoreView {
    pub open spec fn finite(self) -> bool {
        self.cpus.dom().finite()
    }
}

impl LlcView {
    pub open spec fn finite(self) -> bool {
        &&& self.cores.dom().finite()
        &&& forall|c: usize| #[trigger] self.cores.contains_key(c) ==> self.cores[c].finite()
    }

    /// Whether the core `c` of the LLC has the CPU `u`.
    pub open spec fn has_cpu(self, c: usize, u: usize) -> bool {
        self.cores.contains_key(c) && self.cores[c].cpus.contains_key(u)
    }

    /// Whether the skip index of the LLC holds exactly the CPUs of its cores, and no
    /// two cores share a CPU.
    pub open spec fn indices_hold(self) -> bool {
        &&& forall|u: usize| #[trigger]
            self.all_cpus.contains_key(u) ==> exists|c: usize| self.has_cpu(c, u)
        &&& forall|c: usize, u: usize| #[trigger]
            self.has_cpu(c, u) ==> {
                &&& self.all_cpus.contains_key(u)
                &&& self.all_cpus[u] == self.cores[c].cpus[u]
            }
        &&& forall|c: usize, d: usize, u: usize| #[trigger]
            self.has_cpu(c, u) && #[trigger] self.has_cpu(d, u) ==> c == d
    }
}

pub(crate) proof fn lemma_core_members(core: CoreView, c: usize)
    requires
        core.finite(),
    ensures
        core.members(c).contains(Member::Core(c)),
        forall|u: usize| #[trigger]
            core.cpus.contains_key(u) ==> core.members(c).contains(Member::Cpu(u)),
        forall|m: Member| #[trigger]
            core.members(c).contains(m) ==> m == Member::Core(c) || (m matches Member::Cpu(u)
                && core.cpus.contains_key(u)),
        core.members(c).no_duplicates(),
{
    let ids = order::sorted(core.cpus.dom());
    order::lemma_sorted(core.cpus.dom());
    let members = core.members(c);
    assert forall|m: Member| #[trigger] members.contains(m) implies m == Member::Core(c) || (
    m matches Member::Cpu(u) && core.cpus.contains_key(u)) by {
        let i = choose|i: int| 0 <= i < members.len() && members[i] == m;
        if i < ids.len() {
            assert(ids.contains(ids[i]));
        }
    }
    assert(members[members.len() - 1] == Member::Core(c));
    assert forall|u: usize| #[trigger] core.cpus.contains_key(u) implies members.contains(
        Member::Cpu(u),
    ) by {
        assert(ids.contains(u));
        let i = choose|i: int| 0 <= i < ids.len() && ids[i] == u;
        assert(members[i] == Member::Cpu(u));
    }
}

proof fn lemma_llc_indexed(llc: LlcView, l: usize)
    requires
        llc.finite(),
        llc.members(l).no_duplicates(),
    ensures
        llc.indexed().indices_hold(),
        llc.every_cpu().dom().finite(),
        llc.members(l).contains(Member::Llc(l)),
        forall|c: usize| #[trigger]
            llc.cores.contains_key(c) ==> llc.members(l).contains(Member::Core(c)),
        forall|c: usize, u: usize| #[trigger]
            llc.has_cpu(c, u) ==> llc.members(l).contains(Member::Cpu(u)),
{
    let set = llc.cores.dom();
    let cpus = |c: usize| llc.cores[c].cpus;
    let parts = |c: usize| llc.cores[c].members(c);
    let name = |u: usize| Member::Cpu(u);
    let inner = topology::chain(order::sorted(set), parts);
    let members = llc.members(l);
    assert(members[members.len() - 1] == Member::Llc(l));
    assert forall|i: int| 0 <= i < inner.len() implies members[i] == #[trigger] inner[i] by {}
    assert(inner.no_duplicates());
    assert forall|m: Member| inner.contains(m) implies members.contains(m) by {
        let i = choose|i: int| 0 <= i < inner.len() && inner[i] == m;
        assert(members[i] == m);
    }
    lemma_chain_of(set, parts);
    assert forall|c: usize| #[trigger] llc.cores.contains_key(c) implies members.contains(
        Member::Core(c),
    ) by {
        lemma_core_members(llc.cores[c], c);
        assert(parts(c).contains(Member::Core(c)));
    }
    assert forall|c: usize, u: usize|
        set.contains(c) && #[trigger] cpus(c).contains_key(u) implies parts(c).contains(
        name(u),
    ) by {
        assert(llc.cores.contains_key(c));
        lemma_core_members(llc.cores[c], c);
    }
    assert forall|c: usize, u: usize| #[trigger] llc.has_cpu(c, u) implies members.contains(
        Member::Cpu(u),
    ) by {
        assert(cpus(c).contains_key(u));
        assert(parts(c).contains(name(u)));
    }
    lemma_parts(set, cpus, parts, name);
    assert forall|c: usize| set.contains(c) implies #[trigger] cpus(c).dom().finite() by {
        assert(llc.cores.contains_key(c));
    }
    lemma_parts_finite(set, cpus);
    let after = llc.indexed();
    assert(after.all_cpus == topology::gather(order::sorted(set), cpus));
    assert forall|u: usize| #[trigger] after.all_cpus.contains_key(u) implies exists|c: usize|
        after.has_cpu(c, u) by {
        let c = choose|c: usize| set.contains(c) && #[trigger] cpus(c).contains_key(u);
        assert(after.has_cpu(c, u));
    }
    assert forall|c: usize, u: usize| #[trigger] after.has_cpu(c, u) implies {
        &&& after.all_cpus.contains_key(u)
        &&& after.all_cpus[u] == after.cores[c].cpus[u]
    } by {
        assert(cpus(c).contains_key(u));
    }
    assert forall|c: usize, d: usize, u: usize| #[trigger]
        after.has_cpu(c, u) && #[trigger] after.has_cpu(d, u) implies c == d by {
        assert(cpus(c).contains_key(u) && cpus(d).contains_key(u));
    }
}

impl NodeView {
    pub open spec fn finite(self) -> bool {
        &&& self.llcs.dom().finite()
        &&& forall|l: usize| #[trigger] self.llcs.contains_key(l) ==> self.llcs[l].finite()
    }

    /// Whether the LLC `l` of the node has the core `c`.
    pub open spec fn has_core(self, l: usize, c: usize) -> bool {
        self.llcs.contains_key(l) && self.llcs[l].cores.contains_key(c)
    }

    /// Whether the core `c` of the LLC `l` of the node has the CPU `u`.
    pub open spec fn has_cpu(self, l: usize, c: usize, u: usize) -> bool {
        self.has_core(l, c) && self.llcs[l].cores[c].cpus.contains_key(u)
    }

    /// Whether the skip indices of the node and of its LLCs hold exactly the cores and
    /// the CPUs of its LLCs, and no core or CPU is in two places.
    pub open spec fn indices_hold(self) -> bool {
        &&& forall|l: usize| #[trigger] self.llcs.contains_key(l) ==> self.llcs[l].indices_hold()
        &&& forall|c: usize| #[trigger]
            self.all_cores.contains_key(c) ==> exists|l: usize| self.has_core(l, c)
        &&& forall|l: usize, c: usize| #[trigger]
            self.has_core(l, c) ==> {
                &&& self.all_cores.contains_key(c)
                &&& self.all_cores[c] == self.llcs[l].cores[c]
            }
        &&& forall|l: usize, m: usize, c: usize| #[trigger]
            self.has_core(l, c) && #[trigger] self.has_core(m, c) ==> l == m
        &&& forall|u: usize| #[trigger]
            self.all_cpus.contains_key(u) ==> exists|l: usize, c: usize| self.has_cpu(l, c, u)
        &&& forall|l: usize, c: usize, u: usize| #[trigger]
            self.has_cpu(l, c, u) ==> {
                &&& self.all_cpus.contains_key(u)
                &&& self.all_cpus[u] == self.llcs[l].cores[c].cpus[u]
            }
        &&& forall|l: usize, c: usize, m: usize, d: usize, u: usize| #[trigger]
            self.has_cpu(l, c, u) && #[trigger] self.has_cpu(m, d, u) ==> l == m && c == d
    }
}

proof fn lemma_node_indexed(node: NodeView)
    requires
        node.finite(),
        node.members().no_duplicates(),
    ensures
        node.indexed().indices_hold(),
        node.every_core().dom().finite(),
        node.every_cpu().dom().finite(),
        forall|l: usize| #[trigger]
            node.llcs.contains_key(l) ==> node.members().contains(Member::Llc(l)),
        forall|l: usize, c: usize| #[trigger]
            node.has_core(l, c) ==> node.members().contains(Member::Core(c)),
        forall|l: usize, c: usize, u: usize| #[trigger]
            node.has_cpu(l, c, u) ==> node.members().contains(Member::Cpu(u)),
{
    let set = node.llcs.dom();
    let cores = |l: usize| node.llcs[l].cores;
    let cpus = |l: usize| node.llcs[l].every_cpu();
    let parts = |l: usize| node.llcs[l].members(l);
    let core_name = |c: usize| Member::Core(c);
    let cpu_name = |u: usize| Member::Cpu(u);
    let members = node.members();
    lemma_chain_of(set, parts);
    assert forall|l: usize| #[trigger] node.llcs.contains_key(l) implies {
        &&& node.llcs[l].indexed().indices_hold()
        &&& node.llcs[l].every_cpu().dom().finite()
        &&& members.contains(Member::Llc(l))
    } by {
        assert(parts(l).no_duplicates());
        lemma_llc_indexed(node.llcs[l], l);
        assert(parts(l).contains(Member::Llc(l)));
    }
    assert forall|l: usize, c: usize|
        set.contains(l) && #[trigger] cores(l).contains_key(c) implies parts(l).contains(
        core_name(c),
    ) by {
        assert(parts(l).no_duplicates());
        lemma_llc_indexed(node.llcs[l], l);
    }
    assert forall|l: usize, u: usize|
        set.contains(l) && #[trigger] cpus(l).contains_key(u) implies parts(l).contains(
        cpu_name(u),
    ) by {
        assert(parts(l).no_duplicates());
        let llc = node.llcs[l];
        lemma_llc_indexed(llc, l);
        assert(llc.indexed().all_cpus.contains_key(u));
        let c = choose|c: usize| llc.indexed().has_cpu(c, u);
        assert(llc.has_cpu(c, u));
    }
    assert forall|l: usize, c: usize| #[trigger] node.has_core(l, c) implies members.contains(
        Member::Core(c),
    ) by {
        assert(cores(l).contains_key(c));
        assert(parts(l).contains(core_name(c)));
    }
    assert forall|l: usize, c: usize, u: usize| #[trigger] node.has_cpu(l, c, u) implies {
        &&& cpus(l).contains_key(u)
        &&& cpus(l)[u] == node.llcs[l].cores[c].cpus[u]
        &&& members.contains(Member::Cpu(u))
    } by {
        let llc = node.llcs[l];
        assert(node.llcs.contains_key(l));
        assert(llc.indexed().has_cpu(c, u));
        assert(cpus(l).contains_key(u));
        assert(parts(l).contains(cpu_name(u)));
    }
    lemma_parts(set, cores, parts, core_name);
    lemma_parts(set, cpus, parts, cpu_name);
    assert forall|l: usize| set.contains(l) implies #[trigger] cores(l).dom().finite() by {
        assert(node.llcs.contains_key(l));
    }
    assert forall|l: usize| set.contains(l) implies #[trigger] cpus(l).dom().finite() by {
        assert(node.llcs.contains_key(l));
    }
    lemma_parts_finite(set, cores);
    lemma_parts_finite(set, cpus);
    let after = node.indexed();
    assert(after.all_cores == topology::gather(order::sorted(set), cores));
    assert(after.all_cpus == topology::gather(order::sorted(set), cpus));
    assert forall|l: usize, c: usize| #[trigger] after.has_core(l, c) == node.has_core(l, c) by {}
    assert forall|l: usize, c: usize, u: usize| #[trigger] after.has_cpu(l, c, u) == node.has_cpu(
        l,
        c,
        u,
    ) by {}
    assert forall|l: usize| #[trigger]
        after.llcs.contains_key(l) implies after.llcs[l].indices_hold() by {
        assert(node.llcs.contains_key(l));
    }
    assert forall|c: usize| #[trigger] after.all_cores.contains_key(c) implies exists|l: usize|
        after.has_core(l, c) by {
        let l = choose|l: usize| set.contains(l) && #[trigger] cores(l).contains_key(c);
        assert(after.has_core(l, c));
    }
    assert forall|l: usize, c: usize| #[trigger] after.has_core(l, c) implies {
        &&& after.all_cores.contains_key(c)
        &&& after.all_cores[c] == after.llcs[l].cores[c]
    } by {
        assert(cores(l).contains_key(c));
    }
    assert forall|l: usize, m: usize, c: usize| #[trigger]
        after.has_core(l, c) && #[trigger] after.has_core(m, c) implies l == m by {
        assert(cores(l).contains_key(c) && cores(m).contains_key(c));
    }
    assert forall|u: usize| #[trigger] after.all_cpus.contains_key(u) implies exists|
        l: usize,
        c: usize,
    |
        after.has_cpu(l, c, u) by {
        let l = choose|l: usize| set.contains(l) && #[trigger] cpus(l).contains_key(u);
        let llc = node.llcs[l].indexed();
        assert(node.llcs.contains_key(l));
        assert(llc.all_cpus.contains_key(u));
        let c = choose|c: usize| llc.has_cpu(c, u);
        assert(after.has_cpu(l, c, u));
    }
    assert forall|l: usize, c: usize, m: usize, d: usize, u: usize| #[trigger]
        after.has_cpu(l, c, u) && #[trigger] after.has_cpu(m, d, u) implies l == m && c == d by {
        assert(node.has_cpu(l, c, u) && node.has_cpu(m, d, u));
        assert(cpus(l).contains_key(u) && cpus(m).contains_key(u));
        assert(after.llcs.contains_key(l));
        assert(after.llcs[l].has_cpu(c, u) && after.llcs[l].has_cpu(d, u));
    }
}

impl TopologyView {
    /// Whether the node `n` has the LLC `l`.
    pub open spec fn has_llc(self, n: usize, l: usize) -> bool {
        self.nodes.contains_key(n) && self.nodes[n].llcs.contains_key(l)
    }

    /// Whether the LLC `l` of the node `n` has the core `c`.
    pub open spec fn has_core(self, n: usize, l: usize, c: usize) -> bool {
        self.nodes.contains_key(n) && self.nodes[n].has_core(l, c)
    }

    /// Whether the core `c` of the LLC `l` of the node `n` has the CPU `u`.
    pub open spec fn has_cpu(self, n: usize, l: usize, c: usize, u: usize) -> bool {
        self.nodes.contains_key(n) && self.nodes[n].has_cpu(l, c, u)
    }

    /// Whether the skip indices of the topology, of its nodes and of its LLCs hold
    /// exactly what is below them, and nothing is in two places.
    pub open spec fn indices_hold(self) -> bool {
        &&& forall|n: usize| #[trigger]
            self.nodes.contains_key(n) ==> self.nodes[n].indices_hold()
        &&& forall|l: usize| #[trigger]
            self.all_llcs.contains_key(l) ==> exists|n: usize| self.has_llc(n, l)
        &&& forall|n: usize, l: usize| #[trigger]
            self.has_llc(n, l) ==> {
                &&& self.all_llcs.contains_key(l)
                &&& self.all_llcs[l] == self.nodes[n].llcs[l]
            }
        &&& forall|n: usize, m: usize, l: usize| #[trigger]
            self.has_llc(n, l) && #[trigger] self.has_llc(m, l) ==> n == m
        &&& forall|c: usize| #[trigger]
            self.all_cores.contains_key(c) ==> exists|n: usize, l: usize| self.has_core(n, l, c)
        &&& forall|n: usize, l: usize, c: usize| #[trigger]
            self.has_core(n, l, c) ==> {
                &&& self.all_cores.contains_key(c)
                &&& self.all_cores[c] == self.nodes[n].llcs[l].cores[c]
            }
        &&& forall|n: usize, l: usize, m: usize, k: usize, c: usize| #[trigger]
            self.has_core(n, l, c) && #[trigger] self.has_core(m, k, c) ==> n == m && l == k
        &&& forall|u: usize| #[trigger]
            self.all_cpus.contains_key(u) ==> exists|n: usize, l: usize, c: usize|
                self.has_cpu(n, l, c, u)
        &&& forall|n: usize, l: usize, c: usize, u: usize| #[trigger]
            self.has_cpu(n, l, c, u) ==> {
                &&& self.all_cpus.contains_key(u)
                &&& self.all_cpus[u] == self.nodes[n].llcs[l].cores[c].cpus[u]
            }
        &&& forall|n: usize, l: usize, c: usize, m: usize, k: usize, d: usize, u: usize| #[trigger]
            self.has_cpu(n, l, c, u) && #[trigger] self.has_cpu(m, k, d, u) ==> n == m && l == k
                && c == d
    }
}

/// The skip indices of a topology hold exactly the members of its nodes, of its LLCs
/// and of its cores, and no CPU, core or LLC is in two places.
pub proof fn law_indices_hold(span: CpumaskView, nodes: Map<usize, NodeView>, topo: TopologyView)
    requires
        nodes.dom().finite(),
        forall|n: usize| #[trigger] nodes.contains_key(n) ==> nodes[n].finite(),
        topology::assembled(span, nodes) == Ok::<_, ErrorView>(topo),
    ensures
        topo.indices_hold(),
        topo.all_llcs.dom().finite(),
        topo.all_cores.dom().finite(),
        topo.all_cpus.dom().finite(),
{
    let set = nodes.dom();
    let llcs = |n: usize| nodes[n].indexed().llcs;
    let cores = |n: usize| nodes[n].every_core();
    let cpus = |n: usize| nodes[n].every_cpu();
    let parts = |n: usize| nodes[n].members();
    let llc_name = |l: usize| Member::Llc(l);
    let core_name = |c: usize| Member::Core(c);
    let cpu_name = |u: usize| Member::Cpu(u);
    law_first_clash(Set::empty(), topology::members_of(nodes));
    assert(topology::members_of(nodes) == topology::chain(order::sorted(set), parts));
    lemma_chain_of(set, parts);
    assert forall|n: usize| #[trigger] nodes.contains_key(n) implies {
        &&& nodes[n].indexed().indices_hold()
        &&& nodes[n].every_core().dom().finite()
        &&& nodes[n].every_cpu().dom().finite()
        &&& forall|l: usize| #[trigger]
            nodes[n].llcs.contains_key(l) ==> parts(n).contains(Member::Llc(l))
        &&& forall|l: usize, c: usize| #[trigger]
            nodes[n].has_core(l, c) ==> parts(n).contains(Member::Core(c))
        &&& forall|l: usize, c: usize, u: usize| #[trigger]
            nodes[n].has_cpu(l, c, u) ==> parts(n).contains(Member::Cpu(u))
    } by {
        assert(parts(n).no_duplicates());
        lemma_node_indexed(nodes[n]);
    }
    assert forall|n: usize, l: usize|
        set.contains(n) && #[trigger] llcs(n).contains_key(l) implies parts(n).contains(
        llc_name(l),
    ) by {
        assert(nodes.contains_key(n));
        assert(nodes[n].llcs.contains_key(l));
    }
    assert forall|n: usize, c: usize|
        set.contains(n) && #[trigger] cores(n).contains_key(c) implies parts(n).contains(
        core_name(c),
    ) by {
        assert(nodes.contains_key(n));
        let node = nodes[n].indexed();
        assert(node.all_cores.contains_key(c));
        let l = choose|l: usize| node.has_core(l, c);
        assert(nodes[n].has_core(l, c));
    }
    assert forall|n: usize, u: usize|
        set.contains(n) && #[trigger] cpus(n).contains_key(u) implies parts(n).contains(
        cpu_name(u),
    ) by {
        assert(nodes.contains_key(n));
        let node = nodes[n].indexed();
        assert(node.all_cpus.contains_key(u));
        let (l, c) = choose|l: usize, c: usize| node.has_cpu(l, c, u);
        assert(nodes[n].has_cpu(l, c, u));
    }
    lemma_parts(set, llcs, parts, llc_name);
    lemma_parts(set, cores, parts, core_name);
    lemma_parts(set, cpus, parts, cpu_name);
    assert forall|n: usize| set.contains(n) implies {
        &&& #[trigger] llcs(n).dom().finite()
        &&& cores(n).dom().finite()
        &&& cpus(n).dom().finite()
    } by {
        assert(nodes.contains_key(n));
        assert(llcs(n).dom() =~= nodes[n].llcs.dom());
    }
    assert forall|n: usize| set.contains(n) implies #[trigger] cores(n).dom().finite() by {
        assert(llcs(n).dom().finite());
    }
    assert forall|n: usize| set.contains(n) implies #[trigger] cpus(n).dom().finite() by {
        assert(llcs(n).dom().finite());
    }
    lemma_parts_finite(set, llcs);
    lemma_parts_finite(set, cores);
    lemma_parts_finite(set, cpus);
    assert(topo.all_llcs == topology::gather(order::sorted(set), llcs));
    assert(topo.all_cores == topology::gather(order::sorted(set), cores));
    assert(topo.all_cpus == topology::gather(order::sorted(set), cpus));
    assert forall|n: usize| #[trigger]
        topo.nodes.contains_key(n) implies topo.nodes[n].indices_hold() && topo.nodes[n]
        == nodes[n].indexed() && nodes.contains_key(n) by {
        assert(nodes.contains_key(n));
    }
    assert forall|l: usize| #[trigger] topo.all_llcs.contains_key(l) implies exists|n: usize|
        topo.has_llc(n, l) by {
        let n = choose|n: usize| set.contains(n) && #[trigger] llcs(n).contains_key(l);
        assert(topo.has_llc(n, l));
    }
    assert forall|n: usize, l: usize| #[trigger] topo.has_llc(n, l) implies {
        &&& llcs(n).contains_key(l)
        &&& topo.all_llcs.contains_key(l)
        &&& topo.all_llcs[l] == topo.nodes[n].llcs[l]
    } by {
        assert(llcs(n).contains_key(l));
    }
    assert forall|n: usize, m: usize, l: usize| #[trigger]
        topo.has_llc(n, l) && #[trigger] topo.has_llc(m, l) implies n == m by {
        assert(llcs(n).contains_key(l) && llcs(m).contains_key(l));
    }
    assert forall|c: usize| #[trigger] topo.all_cores.contains_key(c) implies exists|
        n: usize,
        l: usize,
    |
        topo.has_core(n, l, c) by {
        let n = choose|n: usize| set.contains(n) && #[trigger] cores(n).contains_key(c);
        assert(topo.nodes.contains_key(n));
        assert(topo.nodes[n].all_cores.contains_key(c));
        let l = choose|l: usize| topo.nodes[n].has_core(l, c);
        assert(topo.has_core(n, l, c));
    }
    assert forall|n: usize, l: usize, c: usize| #[trigger] topo.has_core(n, l, c) implies {
        &&& cores(n).contains_key(c)
        &&& topo.all_cores.contains_key(c)
        &&& topo.all_cores[c] == topo.nodes[n].llcs[l].cores[c]
    } by {
        assert(topo.nodes[n].has_core(l, c));
        assert(cores(n).contains_key(c));
    }
    assert forall|n: usize, l: usize, m: usize, k: usize, c: usize| #[trigger]
        topo.has_core(n, l, c) && #[trigger] topo.has_core(m, k, c) implies n == m && l == k by {
        assert(cores(n).contains_key(c) && cores(m).contains_key(c));
        assert(topo.nodes[n].has_core(l, c) && topo.nodes[n].has_core(k, c));
    }
    assert forall|u: usize| #[trigger] topo.all_cpus.contains_key(u) implies exists|
        n: usize,
        l: usize,
        c: usize,
    |
        topo.has_cpu(n, l, c, u) by {
        let n = choose|n: usize| set.contains(n) && #[trigger] cpus(n).contains_key(u);
        assert(topo.nodes.contains_key(n));
        assert(topo.nodes[n].all_cpus.contains_key(u));
        let (l, c) = choose|l: usize, c: usize| topo.nodes[n].has_cpu(l, c, u);
        assert(topo.has_cpu(n, l, c, u));
    }
    assert forall|n: usize, l: usize, c: usize, u: usize| #[trigger]
        topo.has_cpu(n, l, c, u) implies {
        &&& cpus(n).contains_key(u)
        &&& topo.all_cpus.contains_key(u)
        &&& topo.all_cpus[u] == topo.nodes[n].llcs[l].cores[c].cpus[u]
    } by {
        assert(topo.nodes[n].has_cpu(l, c, u));
        assert(cpus(n).contains_key(u));
    }
    assert forall|n: usize, l: usize, c: usize, m: usize, k: usize, d: usize, u: usize| #[trigger]
        topo.has_cpu(n, l, c, u) && #[trigger] topo.has_cpu(m, k, d, u) implies n == m && l == k
        && c == d by {
        assert(cpus(n).contains_key(u) && cpus(m).contains_key(u));
        assert(topo.nodes[n].has_cpu(l, c, u) && topo.nodes[n].has_cpu(k, d, u));
    }
}

} // verus!
