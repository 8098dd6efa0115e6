//! A topology as an array of arrays.

use crate::bits::{repeat_bit, set_bit, CpuBits};
use crate::error::TopologyError;
use crate::order;
use crate::order::sorted_keys;
use crate::topology::{Topology, TopologyView};
use std::slice::Iter;
use vstd::prelude::*;

verus! {

broadcast use vstd::laws_cmp::group_laws_cmp;

/// Generate a topology map from a Topology object, represented as an array of arrays.
///
/// Each inner array corresponds to a core containing its associated CPU IDs. This map can
/// facilitate efficient iteration over the host's topology.
#[derive(Debug)]
pub struct TopologyMap {
    map: Vec<Vec<usize>>,
}

/// The rows of CPU IDs that an array of arrays holds.
pub open spec fn rows_view(rows: Seq<Vec<usize>>) -> Seq<Seq<usize>> {
    rows.map_values(|row: Vec<usize>| row@)
}

impl View for TopologyMap {
    type V = Seq<Seq<usize>>;

    closed spec fn view(&self) -> Seq<Seq<usize>> {
        rows_view(self.map@)
    }
}

impl TopologyView {
    /// The CPU IDs that each core spans, in ascending order, from the core with
    /// the lowest ID to the one with the highest.
    pub open spec fn rows(self) -> Seq<Seq<usize>> {
        order::sorted(self.all_cores.dom()).map_values(
            |c: usize| order::sorted(self.all_cores[c].span.cpus),
        )
    }
}

/// Whether `row` is the last row with `cpu` in it.
pub open spec fn last_row_with(rows: Seq<Seq<usize>>, row: int, cpu: usize) -> bool {
    &&& 0 <= row < rows.len()
    &&& rows[row].contains(cpu)
    &&& forall|later: int| row < later < rows.len() ==> !(#[trigger] rows[later]).contains(cpu)
}

/// Whether a row has `cpu` in it.
pub open spec fn some_row_with(rows: Seq<Seq<usize>>, cpu: usize) -> bool {
    exists|row: int| 0 <= row < rows.len() && (#[trigger] rows[row]).contains(cpu)
}

/// Whether `ids` holds the row of each of its CPUs: the last one, and 0 for a
/// CPU in no row. It ends with the highest CPU.
pub open spec fn maps_cpus(ids: Seq<usize>, rows: Seq<Seq<usize>>) -> bool {
    &&& forall|cpu: usize| #[trigger] some_row_with(rows, cpu) ==> cpu < ids.len()
    &&& ids.len() > 0 ==> some_row_with(rows, (ids.len() - 1) as usize)
    &&& forall|cpu: usize, row: int|
        cpu < ids.len() && #[trigger] last_row_with(rows, row, cpu) ==> ids[cpu as int] == row
    &&& forall|cpu: usize|
        cpu < ids.len() && !#[trigger] some_row_with(rows, cpu) ==> ids[cpu as int] == 0
}

impl TopologyMap {
    #[verifier::type_invariant]
    spec fn countable(self) -> bool {
        forall|i: int, j: int|
            0 <= i < self.map@.len() && 0 <= j < self.map@[i]@.len() ==> #[trigger] self.map@[i]@[j]
                < usize::MAX
    }

    pub fn new(topo: &Topology) -> (result: Result<TopologyMap, TopologyError>)
        ensures
            result matches Ok(map) && map@ == topo@.rows(),
    {
        let mut map: Vec<Vec<usize>> = Vec::new();
        let ids = sorted_keys(&topo.all_cores);
        assert(topo@.all_cores.dom() =~= topo.all_cores@.dom());
        let mut k: usize = 0;
        while k < ids.len()
            invariant
                k <= ids.len(),
                ids@ == order::sorted(topo@.all_cores.dom()),
                forall|i: int|
                    0 <= i < ids.len() ==> topo.all_cores@.contains_key(#[trigger] ids@[i]),
                map.len() == k,
                forall|i: int|
                    0 <= i < k ==> (#[trigger] map@[i])@ == order::sorted(
                        topo@.all_cores[ids@[i]].span.cpus,
                    ),
                forall|i: int, j: int|
                    0 <= i < k && 0 <= j < map@[i]@.len() ==> #[trigger] map@[i]@[j] < usize::MAX,
            decreases ids.len() - k,
        {
            let id = ids[k];
            match topo.all_cores.get(&id) {
                Some(core) => {
                    let cpu_ids = core.span.cpu_ids();
                    proof {
                        core.span.lemma_bounded();
                    }
                    map.push(cpu_ids);
                },
                None => {
                    assert(false);
                },
            }
            k = k + 1;
        }
        assert(rows_view(map@) =~= topo@.rows());
        Ok(TopologyMap { map })
    }

    pub fn iter(&self) -> (iter: Iter<'_, Vec<usize>>)
        ensures
            vstd::std_specs::iter::IteratorSpec::remaining(&iter).map_values(
                |row: &Vec<usize>| row@,
            ) == self@,
    {
        let iter = self.map.iter();
        assert(vstd::std_specs::iter::IteratorSpec::remaining(&iter).map_values(
            |row: &Vec<usize>| row@,
        ) =~= self@);
        iter
    }

    /// Returns a vector of bit masks, each representing the mapping between
    /// physical cores and the logical cores that run on them.
    /// The index in the vector represents the physical core, and each bit in the
    /// corresponding bits represents whether a logical core belongs to that physical core.
    pub fn core_cpus_bitvec(&self, nr_cpus_possible: usize) -> (core_cpus: Vec<CpuBits>)
        requires
            self@.len() > 0 ==> nr_cpus_possible <= usize::MAX / 8,
            forall|cpu: usize| #[trigger] some_row_with(self@, cpu) ==> cpu < nr_cpus_possible,
        ensures
            core_cpus.len() == self@.len(),
            forall|row: int|
                0 <= row < self@.len() ==> (#[trigger] core_cpus@[row])@ == Seq::new(
                    nr_cpus_possible as nat,
                    |i: int| self@[row].contains(i as usize),
                ),
    {
        let mut core_cpus: Vec<CpuBits> = Vec::new();
        let mut core_id: usize = 0;
        while core_id < self.map.len()
            invariant
                core_id <= self.map.len(),
                self@.len() > 0 ==> nr_cpus_possible <= usize::MAX / 8,
                forall|cpu: usize| #[trigger] some_row_with(self@, cpu) ==> cpu < nr_cpus_possible,
                core_cpus.len() == core_id,
                forall|row: int|
                    0 <= row < core_id ==> (#[trigger] core_cpus@[row])@ == Seq::new(
                        nr_cpus_possible as nat,
                        |i: int| self@[row].contains(i as usize),
                    ),
            decreases self.map.len() - core_id,
        {
            let core = &self.map[core_id];
            assert(core@ == self@[core_id as int]);
            let mut bits = repeat_bit(false, nr_cpus_possible);
            let mut k: usize = 0;
            while k < core.len()
                invariant
                    k <= core.len(),
                    core_id < self.map.len(),
                    core@ == self@[core_id as int],
                    forall|cpu: usize| #[trigger]
                        some_row_with(self@, cpu) ==> cpu < nr_cpus_possible,
                    bits@.len() == nr_cpus_possible,
                    forall|i: int|
                        0 <= i < nr_cpus_possible ==> (#[trigger] bits@[i] <==> core@.take(
                            k as int,
                        ).contains(i as usize)),
                decreases core.len() - k,
            {
                let cpu = core[k];
                assert(self@[core_id as int].contains(cpu));
                assert(some_row_with(self@, cpu));
                set_bit(&mut bits, cpu, true);
                proof {
                    let now = core@.take(k as int);
                    let next = core@.take(k + 1);
                    assert(next == now.push(cpu));
                    assert forall|i: int| 0 <= i < nr_cpus_possible implies (#[trigger] bits@[i]
                        <==> next.contains(i as usize)) by {
                        lemma_push_contains(now, cpu, i as usize);
                    }
                }
                k = k + 1;
            }
            assert(core@.take(k as int) == core@);
            assert(bits@ =~= Seq::new(
                nr_cpus_possible as nat,
                |i: int| self@[core_id as int].contains(i as usize),
            ));
            core_cpus.push(bits);
            core_id = core_id + 1;
        }
        core_cpus
    }

    /// Returns mapping between logical core and physical core ids
    /// The index in the vector represents the logical core, and each corresponding value
    /// represents whether the physical core id of the logical core.
    pub fn cpu_core_mapping(&self) -> (cpu_core_mapping: Vec<usize>)
        ensures
            maps_cpus(cpu_core_mapping@, self@),
    {
        proof {
            use_type_invariant(self);
        }
        let mut cpu_core_mapping: Vec<usize> = Vec::new();
        let mut core_id: usize = 0;
        while core_id < self.map.len()
            invariant
                core_id <= self.map.len(),
                self.countable(),
                maps_cpus(cpu_core_mapping@, self@.take(core_id as int)),
            decreases self.map.len() - core_id,
        {
            let core = &self.map[core_id];
            let ghost before = self@.take(core_id as int);
            assert(core@ == self@[core_id as int]);
            let mut k: usize = 0;
            proof {
                lemma_empty_row(cpu_core_mapping@, before);
                assert(core@.take(0) == Seq::<usize>::empty());
            }
            while k < core.len()
                invariant
                    k <= core.len(),
                    core_id < self.map.len(),
                    self.countable(),
                    core@ == self.map@[core_id as int]@,
                    before.len() == core_id,
                    maps_cpus(cpu_core_mapping@, before.push(core@.take(k as int))),
                decreases core.len() - k,
            {
                let cpu = core[k];
                assert(self.map@[core_id as int]@[k as int] < usize::MAX);
                let ghost old_ids = cpu_core_mapping@;
                if cpu_core_mapping.len() < cpu + 1 {
                    cpu_core_mapping.resize(cpu + 1, 0);
                }
                cpu_core_mapping.set(cpu, core_id);
                proof {
                    assert(core@.take(k + 1) == core@.take(k as int).push(cpu));
                    lemma_one_more(
                        old_ids,
                        cpu_core_mapping@,
                        before,
                        core@.take(k as int),
                        cpu,
                    );
                }
                k = k + 1;
            }
            assert(core@.take(k as int) == core@);
            assert(before.push(core@) == self@.take(core_id + 1));
            core_id = core_id + 1;
        }
        assert(self@.take(core_id as int) == self@);
        cpu_core_mapping
    }
}

proof fn lemma_push_contains(s: Seq<usize>, a: usize, b: usize)
    ensures
        s.push(a).contains(b) <==> s.contains(b) || a == b,
{
    if s.contains(b) {
        let i = choose|i: int| 0 <= i < s.len() && s[i] == b;
        assert(s.push(a)[i] == b);
    }
    assert(s.push(a)[s.len() as int] == a);
}

/// The rows that have a CPU, with one more row.
proof fn lemma_push_row(rows: Seq<Seq<usize>>, row: Seq<usize>, cpu: usize)
    ensures
        some_row_with(rows.push(row), cpu) <==> some_row_with(rows, cpu) || row.contains(cpu),
        last_row_with(rows.push(row), rows.len() as int, cpu) <==> row.contains(cpu),
        forall|i: int|
            i != rows.len() ==> (#[trigger] last_row_with(rows.push(row), i, cpu)
                <==> last_row_with(rows, i, cpu) && !row.contains(cpu)),
{
    let all = rows.push(row);
    assert(all[rows.len() as int] == row);
    if some_row_with(rows, cpu) {
        let i = choose|i: int| 0 <= i < rows.len() && (#[trigger] rows[i]).contains(cpu);
        assert(all[i] == rows[i]);
    }
    if some_row_with(all, cpu) {
        let i = choose|i: int| 0 <= i < all.len() && (#[trigger] all[i]).contains(cpu);
        if i < rows.len() {
            assert(all[i] == rows[i]);
        }
    }
    assert forall|i: int| i != rows.len() implies (#[trigger] last_row_with(all, i, cpu)
        <==> last_row_with(rows, i, cpu) && !row.contains(cpu)) by {
        if last_row_with(all, i, cpu) {
            assert(!all[rows.len() as int].contains(cpu));
            assert forall|later: int| i < later < rows.len() implies !(
            #[trigger] rows[later]).contains(cpu) by {
                assert(!all[later].contains(cpu));
            }
        }
        if last_row_with(rows, i, cpu) && !row.contains(cpu) {
            assert forall|later: int| i < later < all.len() implies !(
            #[trigger] all[later]).contains(cpu) by {
                if later < rows.len() {
                    assert(!rows[later].contains(cpu));
                }
            }
        }
    }
}

/// An empty row maps no CPU.
proof fn lemma_empty_row(ids: Seq<usize>, rows: Seq<Seq<usize>>)
    requires
        maps_cpus(ids, rows),
    ensures
        maps_cpus(ids, rows.push(Seq::empty())),
{
    let none = Seq::<usize>::empty();
    assert forall|cpu: usize| #[trigger]
        some_row_with(rows.push(none), cpu) == some_row_with(rows, cpu) by {
        lemma_push_row(rows, none, cpu);
    }
    assert forall|cpu: usize, row: int|
        cpu < ids.len() && #[trigger] last_row_with(rows.push(none), row, cpu) implies ids[cpu as int]
        == row by {
        lemma_push_row(rows, none, cpu);
    }
}

/// A CPU that is put into the last row is mapped to it.
proof fn lemma_one_more(
    old_ids: Seq<usize>,
    ids: Seq<usize>,
    rows: Seq<Seq<usize>>,
    row: Seq<usize>,
    cpu: usize,
)
    requires
        maps_cpus(old_ids, rows.push(row)),
        ids.len() <= usize::MAX,
        rows.len() <= usize::MAX,
        cpu < usize::MAX,
        ids.len() == if old_ids.len() < cpu + 1 {
            cpu + 1
        } else {
            old_ids.len() as int
        },
        ids[cpu as int] == rows.len(),
        forall|i: int|
            0 <= i < ids.len() && i != cpu ==> #[trigger] ids[i] == if i < old_ids.len() {
                old_ids[i]
            } else {
                0
            },
    ensures
        maps_cpus(ids, rows.push(row.push(cpu))),
{
    let old_rows = rows.push(row);
    let new_row = row.push(cpu);
    let new_rows = rows.push(new_row);
    assert forall|c: usize| #[trigger] some_row_with(new_rows, c) == (some_row_with(old_rows, c) || c
        == cpu) by {
        lemma_push_row(rows, row, c);
        lemma_push_row(rows, new_row, c);
        lemma_push_contains(row, cpu, c);
    }
    assert forall|c: usize| #[trigger] some_row_with(new_rows, c) implies c < ids.len() by {
        if c != cpu {
            assert(some_row_with(old_rows, c));
        }
    }
    assert(some_row_with(new_rows, (ids.len() - 1) as usize)) by {
        let last = (ids.len() - 1) as usize;
        if old_ids.len() >= cpu + 1 {
            assert(some_row_with(old_rows, last));
        }
    }
    assert forall|c: usize, i: int|
        c < ids.len() && #[trigger] last_row_with(new_rows, i, c) implies ids[c as int] == i by {
        lemma_push_row(rows, row, c);
        lemma_push_row(rows, new_row, c);
        lemma_push_contains(row, cpu, c);
        if c != cpu {
            assert(last_row_with(old_rows, i, c));
            assert(old_rows[i].contains(c));
            assert(some_row_with(old_rows, c));
        }
    }
    assert forall|c: usize| c < ids.len() && !#[trigger] some_row_with(new_rows, c) implies ids[c as int]
        == 0 by {
        assert(!some_row_with(old_rows, c));
    }
}

} // verus!
