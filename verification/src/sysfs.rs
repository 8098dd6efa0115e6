//! What sysfs says about the host, as plain values.

use crate::cpumask::{Cpumask, CpumaskView};
use crate::error::{ErrorView, TopologyError};
use crate::hierarchy::Gpu;
use crate::text;
use std::collections::BTreeMap;
use vstd::prelude::*;
use vstd::string::*;

verus! {

/// The numbers in the files of one CPU. A file that is absent, cannot be read or
/// does not hold a number is `None`.
#[derive(Debug, Clone, Copy, PartialEq, Eq)]
pub struct CpuAttrs {
    /// `topology/core_id`
    pub core_id: Option<usize>,
    /// `cache/index2/id`
    pub l2_id: Option<usize>,
    /// `cache/index3/id`
    pub l3_id: Option<usize>,
    /// `cpufreq/scaling_min_freq`
    pub min_freq: Option<usize>,
    /// `cpufreq/scaling_max_freq`
    pub max_freq: Option<usize>,
    /// `cpufreq/base_frequency`
    pub base_freq: Option<usize>,
    /// `cpufreq/cpuinfo_transition_latency`
    pub trans_lat_ns: Option<usize>,
}

/// A directory `/sys/devices/system/cpu/cpu[0-9]*`.
#[derive(Debug)]
pub struct CpuDir {
    pub path: String,
    /// `cpufreq/scaling_max_freq`
    pub max_freq: Option<usize>,
    /// `cpufreq/base_frequency`
    pub base_freq: Option<usize>,
}

/// A directory `/sys/devices/system/node/node*`.
#[derive(Debug)]
pub struct NodeDir {
    pub path: String,
    /// The directories `cpu[0-9]*` in it.
    pub cpu_paths: Vec<String>,
}

/// What a topology is built from.
#[derive(Debug)]
pub struct Sysfs {
    /// The number of possible CPU IDs, which masks of CPUs have room for.
    pub nr_cpu_ids: usize,
    /// The text of `/sys/devices/system/cpu/online`.
    pub online: Option<String>,
    /// Whether `/sys/devices/system/node` exists: whether the kernel has
    /// CONFIG_NUMA.
    pub has_node_dir: bool,
    /// Whether `/sys/devices/system/cpu` exists.
    pub has_cpu_dir: bool,
    pub node_dirs: Vec<NodeDir>,
    pub cpu_dirs: Vec<CpuDir>,
    /// The files of `/sys/devices/system/cpu/cpu<id>`, by `id`.
    pub cpus: BTreeMap<usize, CpuAttrs>,
    /// The GPUs of the host, by the ID of their node.
    pub gpus: BTreeMap<usize, Vec<Gpu>>,
}

impl CpuAttrs {
    /// The attributes of a CPU without a readable file.
    pub open spec fn none() -> CpuAttrs {
        CpuAttrs {
            core_id: None,
            l2_id: None,
            l3_id: None,
            min_freq: None,
            max_freq: None,
            base_freq: None,
            trans_lat_ns: None,
        }
    }
}

/// The CPUs from `min` to `max`, both included.
pub open spec fn cpus_between(min: usize, max: usize) -> Set<usize> {
    Set::new(|c: usize| min <= c <= max)
}

/// The CPUs that the groups of a CPU list stand for together. The first group
/// that is no group, or that names an ID beyond `nr_cpu_ids`, is an error.
pub open spec fn listed_cpus(groups: Seq<Seq<char>>, nr_cpu_ids: usize) -> Result<
    Set<usize>,
    ErrorView,
>
    decreases groups.len(),
{
    if groups.len() == 0 {
        Ok(Set::empty())
    } else {
        match listed_cpus(groups.drop_last(), nr_cpu_ids) {
            Err(e) => Err(e),
            Ok(cpus) => match text::cpu_group(groups.last()) {
                None => Err(ErrorView::ParseOnline { group: text::trimmed(groups.last()) }),
                Some((min, max)) => if min <= max && max >= nr_cpu_ids {
                    let cpu = if min < nr_cpu_ids { nr_cpu_ids } else { min };
                    Err(ErrorView::InvalidCpu { cpu, nr_cpu_ids })
                } else {
                    Ok(cpus.union(cpus_between(min, max)))
                },
            },
        }
    }
}

/// The mask of the CPUs that the text of `cpu/online` lists.
pub open spec fn online_cpus(online: Option<Seq<char>>, nr_cpu_ids: usize) -> Result<
    CpumaskView,
    ErrorView,
> {
    match online {
        None => Err(ErrorView::OnlineUnreadable),
        Some(list) => match listed_cpus(text::pieces(list, ','), nr_cpu_ids) {
            Ok(cpus) => Ok(CpumaskView { nr_cpu_ids: nr_cpu_ids as nat, cpus }),
            Err(e) => Err(e),
        },
    }
}

/// Whether the CPU ID behind the last one of `group` is a `usize`, too.
pub open spec fn group_fits(group: Seq<char>) -> bool {
    text::cpu_group(group) matches Some((_, max)) ==> max < usize::MAX
}

/// Whether each group that is reached before an error comes up fits.
pub open spec fn online_fits(online: Option<Seq<char>>, nr_cpu_ids: usize) -> bool {
    match online {
        None => true,
        Some(list) => {
            let groups = text::pieces(list, ',');
            forall|k: int|
                0 <= k < groups.len() && listed_cpus(#[trigger] groups.take(k), nr_cpu_ids) is Ok
                    ==> group_fits(groups[k])
        },
    }
}

proof fn lemma_listed_error(groups: Seq<Seq<char>>, k: int, nr_cpu_ids: usize)
    requires
        0 <= k <= groups.len(),
        listed_cpus(groups.take(k), nr_cpu_ids) is Err,
    ensures
        listed_cpus(groups, nr_cpu_ids) == listed_cpus(groups.take(k), nr_cpu_ids),
    decreases groups.len(),
{
    if k == groups.len() {
        assert(groups.take(k) == groups);
    } else {
        assert(groups.drop_last().take(k) == groups.take(k));
        lemma_listed_error(groups.drop_last(), k, nr_cpu_ids);
    }
}

/// The view of a text that may be absent.
pub open spec fn text_view(text: Option<String>) -> Option<Seq<char>> {
    match text {
        Some(text) => Some(text@),
        None => None,
    }
}

/// The mask of the CPUs that the text of `cpu/online` lists.
pub fn cpus_online(online: &Option<String>, nr_cpu_ids: usize) -> (result: Result<
    Cpumask,
    TopologyError,
>)
    requires
        online_fits(text_view(*online), nr_cpu_ids),
    ensures
        match result {
            Ok(mask) => online_cpus(text_view(*online), nr_cpu_ids) == Ok::<_, ErrorView>(mask@),
            Err(e) => online_cpus(text_view(*online), nr_cpu_ids) == Err::<CpumaskView, _>(e@),
        },
{
    let list = match online {
        Some(list) => list.as_str(),
        None => return Err(TopologyError::OnlineUnreadable),
    };
    let online_groups = text::split(list, ',');
    let ghost groups = online_groups@.map_values(|part: &str| part@);
    let mut mask = Cpumask::new(nr_cpu_ids);
    let mut k: usize = 0;
    assert(listed_cpus(groups.take(0), nr_cpu_ids) == Ok::<_, ErrorView>(mask@.cpus));
    while k < online_groups.len()
        invariant
            text_view(*online) == Some(list@),
            online_fits(text_view(*online), nr_cpu_ids),
            groups == text::pieces(list@, ','),
            groups == online_groups@.map_values(|part: &str| part@),
            k <= online_groups.len(),
            mask@.nr_cpu_ids == nr_cpu_ids,
            listed_cpus(groups.take(k as int), nr_cpu_ids) == Ok::<_, ErrorView>(mask@.cpus),
        decreases online_groups.len() - k,
    {
        let group = online_groups[k];
        let ghost next = groups.take(k + 1);
        let ghost before = mask@.cpus;
        assert(next.drop_last() == groups.take(k as int));
        assert(next.last() == group@ && groups[k as int] == group@);
        assert(group_fits(group@));
        let (min, max) = match text::scan_cpu_group(group) {
            Some(range) => range,
            None => {
                proof {
                    lemma_listed_error(groups, k + 1, nr_cpu_ids);
                }
                return Err(TopologyError::ParseOnline { group: text::trim(group).to_owned() });
            },
        };
        let mut i = min;
        assert(mask@.cpus =~= before.union(Set::new(|c: usize| min <= c < i)));
        while i < max + 1
            invariant
                max < usize::MAX,
                min <= i,
                min <= max ==> i <= max + 1,
                min > max ==> i == min,
                mask@.nr_cpu_ids == nr_cpu_ids,
                i == min || i <= nr_cpu_ids,
                mask@.cpus == before.union(Set::new(|c: usize| min <= c < i)),
                0 <= k < groups.len(),
                next == groups.take(k + 1),
                groups == text::pieces(list@, ','),
                text_view(*online) == Some(list@),
                text::cpu_group(next.last()) == Some((min, max)),
                listed_cpus(next.drop_last(), nr_cpu_ids) == Ok::<_, ErrorView>(before),
            decreases max + 1 - i,
        {
            match mask.set_cpu(i) {
                Ok(_) => {},
                Err(e) => {
                    proof {
                        lemma_listed_error(groups, k + 1, nr_cpu_ids);
                    }
                    return Err(e);
                },
            }
            assert(mask@.cpus =~= before.union(Set::new(|c: usize| min <= c < i + 1)));
            i = i + 1;
        }
        assert(mask@.cpus =~= before.union(cpus_between(min, max)));
        k = k + 1;
    }
    assert(groups.take(k as int) == groups);
    assert(mask@ =~= (CpumaskView { nr_cpu_ids: nr_cpu_ids as nat, cpus: mask@.cpus }));
    Ok(mask)
}

/// The ID of the CPU whose directory `path` is.
pub open spec fn cpu_dir_id(path: Seq<char>) -> Option<usize> {
    text::number_after(text::trimmed(path), "/sys/devices/system/cpu/cpu"@)
}

/// The ID of the NUMA node whose directory `path` is.
pub open spec fn node_dir_id(path: Seq<char>) -> Option<usize> {
    text::number_after(text::trimmed(path), "/sys/devices/system/node/node"@)
}

/// The ID of the CPU whose directory in that of a NUMA node `path` is:
/// `/sys/devices/system/node/node<node>/cpu<cpu>`, with two numbers.
pub open spec fn node_cpu_id(path: Seq<char>) -> Option<usize> {
    let s = text::trimmed(path);
    let prefix = "/sys/devices/system/node/node"@;
    let rest = s.skip(prefix.len() as int);
    if !prefix.is_prefix_of(s) {
        None
    } else {
        match rest.index_of_first('/') {
            Some(i) => if text::number(rest.take(i)) is Some {
                text::number_after(rest.skip(i), "/cpu"@)
            } else {
                None
            },
            None => None,
        }
    }
}

/// The ID of the CPU whose directory `path` is.
pub fn scan_cpu_dir(path: &str) -> (id: Option<usize>)
    ensures
        id == cpu_dir_id(path@),
{
    text::scan_number_after(text::trim(path), "/sys/devices/system/cpu/cpu")
}

/// The ID of the NUMA node whose directory `path` is.
pub fn scan_node_dir(path: &str) -> (id: Option<usize>)
    ensures
        id == node_dir_id(path@),
{
    text::scan_number_after(text::trim(path), "/sys/devices/system/node/node")
}

/// The ID of the CPU whose directory in that of a NUMA node `path` is.
pub fn scan_node_cpu(path: &str) -> (id: Option<usize>)
    ensures
        id == node_cpu_id(path@),
{
    let rest = match text::strip_prefix(text::trim(path), "/sys/devices/system/node/node") {
        Some(rest) => rest,
        None => return None,
    };
    match text::cut_at(rest, '/') {
        Some((node, cpu)) => match text::scan_number(node) {
            Some(_) => text::scan_number_after(cpu, "/cpu"),
            None => None,
        },
        None => None,
    }
}

/// The IDs of the CPUs whose directories `dirs` are, in the same order. The first
/// path that does not end in an ID is an error.
pub open spec fn dir_ids(dirs: Seq<CpuDir>) -> Result<Seq<usize>, ErrorView>
    decreases dirs.len(),
{
    if dirs.len() == 0 {
        Ok(Seq::empty())
    } else {
        match dir_ids(dirs.drop_last()) {
            Err(e) => Err(e),
            Ok(ids) => match cpu_dir_id(dirs.last().path@) {
                Some(id) => Ok(ids.push(id)),
                None => Err(ErrorView::ParseCpuId { path: text::trimmed(dirs.last().path@) }),
            },
        }
    }
}

/// `ids` from the lowest to the highest.
pub open spec fn in_order(ids: Seq<usize>) -> Seq<usize> {
    ids.sort_by(|a: usize, b: usize| a <= b)
}

/// The IDs of the CPUs whose directories `dirs` are, from the lowest to the
/// highest.
pub open spec fn cpu_ids(dirs: Seq<CpuDir>) -> Result<Seq<usize>, ErrorView> {
    match dir_ids(dirs) {
        Ok(ids) => Ok(in_order(ids)),
        Err(e) => Err(e),
    }
}

proof fn lemma_dir_ids_error(dirs: Seq<CpuDir>, k: int)
    requires
        0 <= k <= dirs.len(),
        dir_ids(dirs.take(k)) is Err,
    ensures
        dir_ids(dirs) == dir_ids(dirs.take(k)),
    decreases dirs.len(),
{
    if k == dirs.len() {
        assert(dirs.take(k) == dirs);
    } else {
        assert(dirs.drop_last().take(k) == dirs.take(k));
        lemma_dir_ids_error(dirs.drop_last(), k);
    }
}

/// Puts `id` behind the last item of `ids` that is not greater.
fn insert_in_order(ids: &mut Vec<usize>, id: usize)
    requires
        forall|i: int, j: int| 0 <= i < j < old(ids).len() ==> old(ids)@[i] <= old(ids)@[j],
    ensures
        final(ids)@.to_multiset() == old(ids)@.to_multiset().insert(id),
        forall|i: int, j: int| 0 <= i < j < final(ids).len() ==> final(ids)@[i] <= final(ids)@[j],
{
    let mut at = ids.len();
    while at > 0 && ids[at - 1] > id
        invariant
            at <= ids.len(),
            forall|i: int, j: int| 0 <= i < j < ids.len() ==> ids@[i] <= ids@[j],
            forall|i: int| at <= i < ids.len() ==> ids@[i] > id,
        decreases at,
    {
        at = at - 1;
    }
    let ghost before = ids@;
    ids.insert(at, id);
    proof {
        vstd::seq_lib::to_multiset_insert(before, at as int, id);
        assert forall|i: int, j: int| 0 <= i < j < ids.len() implies ids@[i] <= ids@[j] by {
            let bi = if i < at { i } else { i - 1 };
            let bj = if j < at { j } else { j - 1 };
            if i != at {
                assert(ids@[i] == before[bi]);
            }
            if j != at {
                assert(ids@[j] == before[bj]);
            }
            if i == at {
                assert(before[bj] > id);
            } else if j == at {
                assert(before[i] <= before[at - 1]);
            }
        }
    }
}

/// The IDs of the CPUs whose directories `dirs` are, from the lowest to the
/// highest.
pub fn read_cpu_ids(dirs: &Vec<CpuDir>) -> (result: Result<Vec<usize>, TopologyError>)
    ensures
        match result {
            Ok(ids) => cpu_ids(dirs@) == Ok::<_, ErrorView>(ids@),
            Err(e) => cpu_ids(dirs@) == Err::<Seq<usize>, _>(e@),
        },
{
    let mut ids: Vec<usize> = Vec::new();
    let mut k: usize = 0;
    let ghost mut found: Seq<usize> = Seq::empty();
    while k < dirs.len()
        invariant
            k <= dirs.len(),
            dir_ids(dirs@.take(k as int)) == Ok::<_, ErrorView>(found),
            ids@.to_multiset() == found.to_multiset(),
            forall|i: int, j: int| 0 <= i < j < ids.len() ==> ids@[i] <= ids@[j],
        decreases dirs.len() - k,
    {
        let ghost next = dirs@.take(k + 1);
        assert(next.drop_last() == dirs@.take(k as int));
        assert(next.last() == dirs@[k as int]);
        match scan_cpu_dir(dirs[k].path.as_str()) {
            Some(id) => {
                insert_in_order(&mut ids, id);
                proof {
                    vstd::seq_lib::to_multiset_build(found, id);
                    found = found.push(id);
                }
            },
            None => {
                proof {
                    lemma_dir_ids_error(dirs@, k + 1);
                }
                let path = text::trim(dirs[k].path.as_str()).to_owned();
                return Err(TopologyError::ParseCpuId { path });
            },
        }
        k = k + 1;
    }
    proof {
        assert(dirs@.take(k as int) == dirs@);
        let leq = |a: usize, b: usize| a <= b;
        assert(vstd::relations::total_ordering(leq));
        found.lemma_sort_by_ensures(leq);
        vstd::seq_lib::lemma_sorted_unique(ids@, found.sort_by(leq), leq);
    }
    Ok(ids)
}

/// The number of possible CPU IDs, where `ids` are those of the CPU directories,
/// from the lowest to the highest: one more than the highest.
pub fn nr_cpu_ids(ids: &Vec<usize>) -> (n: usize)
    requires
        ids.len() > 0,
        ids@.last() < usize::MAX,
    ensures
        n == ids@.last() + 1,
{
    ids[ids.len() - 1] + 1
}

impl CpuDir {
    /// The maximum frequency of the CPU, or 0 where it is not known.
    pub open spec fn top_freq(self) -> usize {
        match self.max_freq {
            Some(freq) => freq,
            None => 0,
        }
    }

    /// The base frequency of the CPU, or else its maximum frequency.
    pub open spec fn base(self) -> usize {
        match self.base_freq {
            Some(freq) => freq,
            None => self.top_freq(),
        }
    }
}

/// The sum of the base frequencies.
pub open spec fn base_sum(dirs: Seq<CpuDir>) -> nat
    decreases dirs.len(),
{
    if dirs.len() == 0 {
        0
    } else {
        base_sum(dirs.drop_last()) + dirs.last().base() as nat
    }
}

/// How many CPUs have a base frequency.
pub open spec fn base_count(dirs: Seq<CpuDir>) -> nat
    decreases dirs.len(),
{
    if dirs.len() == 0 {
        0
    } else {
        base_count(dirs.drop_last()) + if dirs.last().base() > 0 {
            1nat
        } else {
            0
        }
    }
}

/// The highest maximum frequency of the CPUs that have a base frequency.
pub open spec fn highest_freq(dirs: Seq<CpuDir>) -> usize
    decreases dirs.len(),
{
    if dirs.len() == 0 {
        0
    } else {
        let before = highest_freq(dirs.drop_last());
        if dirs.last().base() > 0 && dirs.last().top_freq() > before {
            dirs.last().top_freq()
        } else {
            before
        }
    }
}

/// The average base frequency, over the CPUs that have one, and the highest
/// maximum frequency. `None` where no CPU has a base frequency.
pub open spec fn average_freq(dirs: Seq<CpuDir>) -> Option<(usize, usize)> {
    if base_sum(dirs) == 0 {
        None
    } else {
        Some(((base_sum(dirs) / base_count(dirs)) as usize, highest_freq(dirs)))
    }
}

proof fn lemma_base_sum_grows(dirs: Seq<CpuDir>, k: int)
    requires
        0 <= k <= dirs.len(),
    ensures
        base_sum(dirs.take(k)) <= base_sum(dirs),
        base_count(dirs.take(k)) <= k,
        base_count(dirs) <= base_sum(dirs),
        base_sum(dirs) > 0 ==> base_count(dirs) > 0,
    decreases dirs.len(),
{
    assert(dirs.take(dirs.len() as int) == dirs);
    if dirs.len() > 0 {
        let head = dirs.drop_last();
        if k < dirs.len() {
            lemma_base_sum_grows(head, k);
            assert(head.take(k) == dirs.take(k));
        } else {
            lemma_base_sum_grows(head, head.len() as int);
            assert(head.take(head.len() as int) == head);
        }
    }
}

/// The maximum frequency of a CPU, or 0 where it is not known.
fn max_freq_of(dir: &CpuDir) -> (freq: usize)
    ensures
        freq == dir.top_freq(),
{
    match dir.max_freq {
        Some(freq) => freq,
        None => 0,
    }
}

/// The base frequency of a CPU, or else its maximum frequency.
fn base_freq_of(dir: &CpuDir) -> (freq: usize)
    ensures
        freq == dir.base(),
{
    match dir.base_freq {
        Some(freq) => freq,
        None => max_freq_of(dir),
    }
}

/// Return the average base frequency across all CPUs and the highest maximum
/// frequency.
pub fn avg_cpu_freq(dirs: &Vec<CpuDir>) -> (result: Option<(usize, usize)>)
    requires
        base_sum(dirs@) <= usize::MAX,
    ensures
        result == average_freq(dirs@),
{
    let mut top_max_freq: usize = 0;
    let mut avg_base_freq: usize = 0;
    let mut nr_cpus: usize = 0;
    let mut k: usize = 0;
    while k < dirs.len()
        invariant
            k <= dirs.len(),
            base_sum(dirs@) <= usize::MAX,
            avg_base_freq == base_sum(dirs@.take(k as int)),
            nr_cpus == base_count(dirs@.take(k as int)),
            nr_cpus <= k,
            top_max_freq == highest_freq(dirs@.take(k as int)),
        decreases dirs.len() - k,
    {
        proof {
            let next = dirs@.take(k + 1);
            assert(next.drop_last() == dirs@.take(k as int));
            assert(next.last() == dirs@[k as int]);
            lemma_base_sum_grows(dirs@, k + 1);
        }
        let max_freq = max_freq_of(&dirs[k]);
        let base_freq = base_freq_of(&dirs[k]);
        if base_freq > 0 {
            if max_freq > top_max_freq {
                top_max_freq = max_freq;
            }
            avg_base_freq = avg_base_freq + base_freq;
            nr_cpus = nr_cpus + 1;
        }
        k = k + 1;
    }
    assert(dirs@.take(k as int) == dirs@);
    if avg_base_freq == 0 {
        return None;
    }
    proof {
        lemma_base_sum_grows(dirs@, 0);
        vstd::arithmetic::div_mod::lemma_div_is_ordered_by_denominator(
            avg_base_freq as int,
            1,
            nr_cpus as int,
        );
    }
    Some((avg_base_freq / nr_cpus, top_max_freq))
}

impl Sysfs {
    /// Whether a topology of the host needs the average frequency, once the
    /// online CPUs are known.
    pub open spec fn needs_average(self, flattened: bool) -> bool {
        if !flattened && self.has_node_dir {
            self.node_dirs.len() > 0 && node_dir_id(self.node_dirs[0].path@) is Some
        } else {
            self.has_cpu_dir
        }
    }

    /// Whether the numbers that come up while a topology is built are within the
    /// range of `usize`.
    pub open spec fn in_range(self, flattened: bool) -> bool {
        &&& online_fits(text_view(self.online), self.nr_cpu_ids)
        &&& online_cpus(text_view(self.online), self.nr_cpu_ids) is Ok && self.needs_average(
            flattened,
        ) ==> base_sum(self.cpu_dirs@) <= usize::MAX
    }

    /// Whether the numbers that come up while a topology is built are within the
    /// range of `usize`.
    pub fn is_in_range(&self, flattened: bool) -> (fits: bool)
        ensures
            fits == self.in_range(flattened),
    {
        let needs_average = if !flattened && self.has_node_dir {
            self.node_dirs.len() > 0 && scan_node_dir(
                self.node_dirs[0].path.as_str(),
            ).is_some()
        } else {
            self.has_cpu_dir
        };
        match scan_online(&self.online, self.nr_cpu_ids) {
            None => false,
            Some(listed) => !listed || !needs_average || base_sum_fits(&self.cpu_dirs),
        }
    }
}

/// Whether the text of `cpu/online` is a list of CPUs below `nr_cpu_ids`. `None`
/// where a group does not fit.
fn scan_online(online: &Option<String>, nr_cpu_ids: usize) -> (listed: Option<bool>)
    ensures
        listed is Some <==> online_fits(text_view(*online), nr_cpu_ids),
        listed matches Some(listed) ==> listed == (online_cpus(
            text_view(*online),
            nr_cpu_ids,
        ) is Ok),
{
    let list = match online {
        Some(list) => list.as_str(),
        None => return Some(false),
    };
    let online_groups = text::split(list, ',');
    let ghost groups = online_groups@.map_values(|part: &str| part@);
    let mut k: usize = 0;
    while k < online_groups.len()
        invariant
            text_view(*online) == Some(list@),
            groups == text::pieces(list@, ','),
            groups == online_groups@.map_values(|part: &str| part@),
            k <= online_groups.len(),
            listed_cpus(groups.take(k as int), nr_cpu_ids) is Ok,
            forall|j: int| 0 <= j < k ==> group_fits(#[trigger] groups[j]),
        decreases online_groups.len() - k,
    {
        let group = online_groups[k];
        let ghost next = groups.take(k + 1);
        assert(next.drop_last() == groups.take(k as int));
        assert(next.last() == group@ && groups[k as int] == group@);
        let accepted = match text::scan_cpu_group(group) {
            Some((min, max)) => {
                if max == usize::MAX {
                    assert(!group_fits(groups[k as int]));
                    return None;
                }
                min > max || max < nr_cpu_ids
            },
            None => false,
        };
        if !accepted {
            proof {
                lemma_listed_error(groups, k + 1, nr_cpu_ids);
                assert forall|j: int|
                    0 <= j < groups.len() && listed_cpus(
                        #[trigger] groups.take(j),
                        nr_cpu_ids,
                    ) is Ok implies group_fits(groups[j]) by {
                    if j > k {
                        assert(groups.take(j).take(k + 1) == groups.take(k + 1));
                        lemma_listed_error(groups.take(j), k + 1, nr_cpu_ids);
                    }
                }
            }
            return Some(false);
        }
        k = k + 1;
    }
    assert(groups.take(k as int) == groups);
    Some(true)
}

/// Whether the sum of the base frequencies is within the range of `usize`.
fn base_sum_fits(dirs: &Vec<CpuDir>) -> (fits: bool)
    ensures
        fits == (base_sum(dirs@) <= usize::MAX),
{
    let mut sum: usize = 0;
    let mut k: usize = 0;
    while k < dirs.len()
        invariant
            k <= dirs.len(),
            sum == base_sum(dirs@.take(k as int)),
        decreases dirs.len() - k,
    {
        proof {
            let next = dirs@.take(k + 1);
            assert(next.drop_last() == dirs@.take(k as int));
            assert(next.last() == dirs@[k as int]);
            lemma_base_sum_grows(dirs@, k + 1);
        }
        let base = base_freq_of(&dirs[k]);
        if base > usize::MAX - sum {
            return false;
        }
        sum = sum + base;
        k = k + 1;
    }
    assert(dirs@.take(k as int) == dirs@);
    true
}

} // verus!
