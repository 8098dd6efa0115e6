//! Sets of CPUs.

use crate::error::TopologyError;
use crate::order;
use vstd::prelude::*;

verus! {

/// What a [`Cpumask`] stands for.
#[verifier::ext_equal]
pub struct CpumaskView {
    /// How many CPU IDs the mask has room for.
    pub nr_cpu_ids: nat,
    /// The CPUs in the mask.
    pub cpus: Set<usize>,
}

impl CpumaskView {
    /// The mask without a CPU.
    pub open spec fn none(nr_cpu_ids: nat) -> CpumaskView {
        CpumaskView { nr_cpu_ids, cpus: Set::empty() }
    }

    /// The mask with `cpu` in it, too.
    pub open spec fn with(self, cpu: usize) -> CpumaskView {
        CpumaskView { cpus: self.cpus.insert(cpu), ..self }
    }
}

/// A set of CPUs whose IDs are below a limit that the mask is made with.
#[derive(Debug, PartialEq, Eq, PartialOrd, Ord)]
pub struct Cpumask {
    bits: Vec<bool>,
}

impl View for Cpumask {
    type V = CpumaskView;

    closed spec fn view(&self) -> CpumaskView {
        CpumaskView {
            nr_cpu_ids: self.bits@.len(),
            cpus: Set::new(|c: usize| c < self.bits@.len() && self.bits@[c as int]),
        }
    }
}

impl Clone for Cpumask {
    fn clone(&self) -> (mask: Self)
        ensures
            mask@ == self@,
    {
        let bits = self.bits.clone();
        assert(bits@ =~= self.bits@);
        Cpumask { bits }
    }
}

/// The numbers below `n` that `bits` marks.
spec fn marked(bits: Seq<bool>, n: int) -> Set<usize> {
    Set::new(|c: usize| c < n && c < bits.len() && bits[c as int])
}

proof fn lemma_marked_step(bits: Seq<bool>, n: usize)
    requires
        n < bits.len() <= usize::MAX,
    ensures
        !marked(bits, n as int).contains(n),
        marked(bits, n + 1) == if bits[n as int] {
            marked(bits, n as int).insert(n)
        } else {
            marked(bits, n as int)
        },
{
    assert(marked(bits, n + 1) =~= if bits[n as int] {
        marked(bits, n as int).insert(n)
    } else {
        marked(bits, n as int)
    });
}

proof fn lemma_marked_finite(bits: Seq<bool>, n: usize)
    requires
        n <= bits.len() <= usize::MAX,
    ensures
        marked(bits, n as int).finite(),
        marked(bits, n as int).len() <= n,
    decreases n,
{
    if n == 0 {
        assert(marked(bits, 0) =~= Set::empty());
    } else {
        let m = (n - 1) as usize;
        lemma_marked_finite(bits, m);
        lemma_marked_step(bits, m);
    }
}

impl Cpumask {
    /// A mask holds finitely many CPUs, and their IDs are below its limit.
    pub proof fn lemma_bounded(&self)
        ensures
            self@.nr_cpu_ids <= usize::MAX,
            self@.cpus.finite(),
            self@.cpus.len() <= self@.nr_cpu_ids,
            forall|c: usize| #[trigger] self@.cpus.contains(c) ==> c < self@.nr_cpu_ids,
    {
        let n = self.bits.len();
        assert(n == self.bits@.len());
        lemma_marked_finite(self.bits@, n);
        assert(marked(self.bits@, n as int) =~= self@.cpus);
    }

    /// A mask without a CPU, with room for the IDs below `nr_cpu_ids`.
    pub fn new(nr_cpu_ids: usize) -> (mask: Cpumask)
        ensures
            mask@ == CpumaskView::none(nr_cpu_ids as nat),
    {
        let mut bits: Vec<bool> = Vec::new();
        while bits.len() < nr_cpu_ids
            invariant
                bits.len() <= nr_cpu_ids,
                forall|i: int| 0 <= i < bits.len() ==> !bits[i],
            decreases nr_cpu_ids - bits.len(),
        {
            bits.push(false);
        }
        let mask = Cpumask { bits };
        assert(mask@.cpus =~= Set::empty());
        mask
    }

    /// How many CPU IDs the mask has room for.
    pub fn nr_cpu_ids(&self) -> (n: usize)
        ensures
            n == self@.nr_cpu_ids,
    {
        self.bits.len()
    }

    /// Puts `cpu` into the mask. Fails, and leaves the mask as it is, where the
    /// mask has no room for that ID.
    pub fn set_cpu(&mut self, cpu: usize) -> (result: Result<(), TopologyError>)
        ensures
            match result {
                Ok(_) => cpu < old(self)@.nr_cpu_ids && final(self)@ == old(self)@.with(cpu),
                Err(e) => cpu >= old(self)@.nr_cpu_ids && final(self)@ == old(self)@ && e
                    == (TopologyError::InvalidCpu {
                    cpu,
                    nr_cpu_ids: old(self)@.nr_cpu_ids as usize,
                }),
            },
    {
        if cpu >= self.bits.len() {
            return Err(TopologyError::InvalidCpu { cpu, nr_cpu_ids: self.bits.len() });
        }
        self.bits.set(cpu, true);
        assert(self@.cpus =~= old(self)@.cpus.insert(cpu));
        Ok(())
    }

    /// Whether `cpu` is in the mask.
    pub fn test_cpu(&self, cpu: usize) -> (present: bool)
        ensures
            present == self@.cpus.contains(cpu),
    {
        cpu < self.bits.len() && self.bits[cpu]
    }

    /// The number of CPUs in the mask.
    pub fn weight(&self) -> (n: usize)
        ensures
            n == self@.cpus.len(),
    {
        let mut n: usize = 0;
        let mut i: usize = 0;
        let len = self.bits.len();
        proof {
            lemma_marked_finite(self.bits@, 0);
        }
        while i < len
            invariant
                len == self.bits.len(),
                i <= len,
                n <= i,
                marked(self.bits@, i as int).finite(),
                n == marked(self.bits@, i as int).len(),
            decreases len - i,
        {
            proof {
                lemma_marked_step(self.bits@, i);
            }
            if self.bits[i] {
                n = n + 1;
            }
            i = i + 1;
        }
        assert(marked(self.bits@, i as int) =~= self@.cpus);
        n
    }

    /// The IDs of the CPUs in the mask, in ascending order.
    pub fn cpu_ids(&self) -> (ids: Vec<usize>)
        ensures
            ids@ == order::sorted(self@.cpus),
            order::ascending(ids@),
            ids@.to_set() == self@.cpus,
            forall|i: int| 0 <= i < ids.len() ==> #[trigger] ids@[i] < self@.nr_cpu_ids,
    {
        let mut ids: Vec<usize> = Vec::new();
        let mut i: usize = 0;
        assert(ids@.to_set() =~= marked(self.bits@, 0));
        while i < self.bits.len()
            invariant
                i <= self.bits.len(),
                order::ascending(ids@),
                forall|k: int| 0 <= k < ids.len() ==> #[trigger] ids@[k] < i,
                ids@.to_set() == marked(self.bits@, i as int),
            decreases self.bits.len() - i,
        {
            let ghost before = ids@;
            proof {
                lemma_marked_step(self.bits@, i);
            }
            if self.bits[i] {
                ids.push(i);
                assert forall|k: usize|
                    before.push(i).to_set().contains(k) <==> before.to_set().insert(i).contains(
                        k,
                    ) by {
                    if before.contains(k) {
                        let j = choose|j: int| 0 <= j < before.len() && before[j] == k;
                        assert(before.push(i)[j] == k);
                    }
                    assert(before.push(i)[before.len() as int] == i);
                }
                assert(ids@.to_set() =~= before.to_set().insert(i));
            }
            i = i + 1;
        }
        assert(marked(self.bits@, i as int) =~= self@.cpus);
        proof {
            order::lemma_sorted_is(ids@);
        }
        ids
    }
}

} // verus!
