use scx_topology::builder::classify_core;
use scx_topology::{
    Core, CoreType, CpuAttrs, CpuDir, Cpumask, Gpu, Llc, Node, NodeDir, Sysfs, Topology,
    TopologyError, TopologyMap,
};
use std::collections::BTreeMap;
use std::sync::Arc;

/// A CPU by its ID, the kernel ID of its core and that of its L3 cache.
fn host(cpus: Vec<(usize, usize, usize)>, online: &str) -> Sysfs {
    let mut sys = Sysfs {
        nr_cpu_ids: 16,
        online: Some(online.to_string()),
        has_node_dir: false,
        has_cpu_dir: true,
        node_dirs: vec![],
        cpu_dirs: vec![],
        cpus: BTreeMap::new(),
        gpus: BTreeMap::new(),
    };
    for (id, core, l3) in cpus {
        sys.cpu_dirs.push(CpuDir {
            path: format!("/sys/devices/system/cpu/cpu{}", id),
            max_freq: None,
            base_freq: None,
        });
        sys.cpus.insert(
            id,
            CpuAttrs {
                core_id: Some(core),
                l2_id: Some(core + 100),
                l3_id: Some(l3),
                min_freq: None,
                max_freq: None,
                base_freq: None,
                trans_lat_ns: None,
            },
        );
    }
    sys
}

fn set_freq(sys: &mut Sysfs, cpu: usize, max_freq: usize, base_freq: usize) {
    let path = format!("/sys/devices/system/cpu/cpu{}", cpu);
    for dir in sys.cpu_dirs.iter_mut() {
        if dir.path == path {
            dir.max_freq = Some(max_freq);
            dir.base_freq = Some(base_freq);
        }
    }
    let attrs = sys.cpus.get_mut(&cpu).unwrap();
    attrs.max_freq = Some(max_freq);
    attrs.base_freq = Some(base_freq);
}

fn add_node(sys: &mut Sysfs, name: &str, cpus: Vec<&str>) {
    sys.has_node_dir = true;
    let path = format!("/sys/devices/system/node/{}", name);
    let cpu_paths = cpus.iter().map(|cpu| format!("{}/{}", path, cpu)).collect();
    sys.node_dirs.push(NodeDir { path, cpu_paths });
}

fn keys<V>(map: &BTreeMap<usize, V>) -> Vec<usize> {
    map.keys().copied().collect()
}

/// Two LLCs with two cores each, of two CPUs each.
fn smt_host() -> Sysfs {
    host(
        vec![
            (0, 0, 0),
            (1, 1, 0),
            (2, 2, 7),
            (3, 3, 7),
            (4, 0, 0),
            (5, 1, 0),
            (6, 2, 7),
            (7, 3, 7),
        ],
        "0-7",
    )
}

#[test]
fn default_node_holds_all_cpus() {
    let topo = Topology::new(&smt_host()).unwrap();
    assert_eq!(keys(&topo.nodes), vec![0]);
    assert_eq!(keys(&topo.all_llcs), vec![0, 1]);
    assert_eq!(keys(&topo.all_cores), vec![0, 1, 2, 3]);
    assert_eq!(keys(&topo.all_cpus), vec![0, 1, 2, 3, 4, 5, 6, 7]);
    assert_eq!(topo.nr_cpus_online, 8);
    assert_eq!(topo.span.cpu_ids(), vec![0, 1, 2, 3, 4, 5, 6, 7]);
    assert_eq!(topo.all_llcs[&0].kernel_id, 0);
    assert_eq!(topo.all_llcs[&1].kernel_id, 7);
    assert_eq!(topo.all_llcs[&1].span.cpu_ids(), vec![2, 3, 6, 7]);
    assert_eq!(keys(&topo.all_llcs[&1].all_cpus), vec![2, 3, 6, 7]);
    assert_eq!(keys(&topo.all_llcs[&1].cores), vec![2, 3]);
    assert_eq!(topo.all_cores[&2].span.cpu_ids(), vec![2, 6]);
    assert_eq!(keys(&topo.all_cores[&2].cpus), vec![2, 6]);
    assert_eq!(topo.nodes[&0].span.cpu_ids(), vec![0, 1, 2, 3, 4, 5, 6, 7]);
    assert_eq!(keys(&topo.nodes[&0].all_cores), vec![0, 1, 2, 3]);
    assert_eq!(keys(&topo.nodes[&0].all_cpus), vec![0, 1, 2, 3, 4, 5, 6, 7]);
}

#[test]
fn objects_carry_the_ids_of_their_ancestors() {
    let topo = Topology::new(&smt_host()).unwrap();
    let cpu = &topo.all_cpus[&6];
    assert_eq!((cpu.id, cpu.core_id, cpu.llc_id, cpu.node_id), (6, 2, 1, 0));
    assert_eq!((cpu.l2_id, cpu.l3_id), (102, 7));
    let core = &topo.all_cores[&2];
    assert_eq!((core.id, core.kernel_id, core.llc_id, core.node_id), (2, 2, 1, 0));
    let llc = &topo.all_llcs[&1];
    assert_eq!((llc.id, llc.node_id), (1, 0));
}

#[test]
fn skip_indices_share_what_is_below_them() {
    let topo = Topology::new(&smt_host()).unwrap();
    let llc = &topo.nodes[&0].llcs[&1];
    assert!(Arc::ptr_eq(&topo.all_llcs[&1], llc));
    assert!(Arc::ptr_eq(&topo.all_cores[&2], &llc.cores[&2]));
    assert!(Arc::ptr_eq(&topo.nodes[&0].all_cores[&2], &llc.cores[&2]));
    assert!(Arc::ptr_eq(&topo.all_cpus[&6], &llc.cores[&2].cpus[&6]));
    assert!(Arc::ptr_eq(&topo.nodes[&0].all_cpus[&6], &llc.cores[&2].cpus[&6]));
    assert!(Arc::ptr_eq(&llc.all_cpus[&6], &llc.cores[&2].cpus[&6]));
}

#[test]
fn ids_are_given_out_in_the_order_of_the_cpus() {
    let topo = Topology::new(&host(vec![(3, 9, 4), (1, 5, 4), (2, 9, 4)], "1-3")).unwrap();
    assert_eq!(keys(&topo.all_cores), vec![0, 1]);
    assert_eq!(topo.all_cores[&0].kernel_id, 5);
    assert_eq!(topo.all_cores[&1].kernel_id, 9);
    assert_eq!(topo.all_llcs[&0].kernel_id, 4);
}

#[test]
fn offline_cpus_are_skipped() {
    let mut sys = smt_host();
    sys.online = Some("0-2,4-5".to_string());
    sys.cpus.remove(&3);
    let topo = Topology::new(&sys).unwrap();
    assert_eq!(keys(&topo.all_cpus), vec![0, 1, 2, 4, 5]);
    assert_eq!(keys(&topo.all_cores), vec![0, 1, 2]);
    assert_eq!(topo.nr_cpus_online, 5);
}

#[test]
fn span_counts_online_cpus_without_a_directory() {
    let topo = Topology::new(&host(vec![(0, 0, 0)], "0-1")).unwrap();
    assert_eq!(keys(&topo.all_cpus), vec![0]);
    assert_eq!(topo.span.cpu_ids(), vec![0, 1]);
    assert_eq!(topo.nr_cpus_online, 2);
}

#[test]
fn unknown_caches_and_frequencies_are_zero() {
    let mut sys = host(vec![(0, 3, 0)], "0");
    sys.cpus.insert(
        0,
        CpuAttrs {
            core_id: Some(3),
            l2_id: None,
            l3_id: None,
            min_freq: None,
            max_freq: None,
            base_freq: None,
            trans_lat_ns: None,
        },
    );
    let topo = Topology::new(&sys).unwrap();
    let cpu = &topo.all_cpus[&0];
    assert_eq!((cpu.l2_id, cpu.l3_id), (0, 0));
    assert_eq!((cpu.min_freq, cpu.max_freq, cpu.base_freq, cpu.trans_lat_ns), (0, 0, 0, 0));
    assert_eq!(cpu.core_type, CoreType::Big { turbo: false });
}

#[test]
fn base_frequency_is_the_maximum_where_it_is_unknown() {
    let mut sys = host(vec![(0, 0, 0)], "0");
    let attrs = sys.cpus.get_mut(&0).unwrap();
    attrs.min_freq = Some(400);
    attrs.max_freq = Some(5000);
    attrs.trans_lat_ns = Some(20);
    let topo = Topology::new(&sys).unwrap();
    let cpu = &topo.all_cpus[&0];
    assert_eq!((cpu.min_freq, cpu.max_freq, cpu.base_freq, cpu.trans_lat_ns), (400, 5000, 5000, 20));
}

#[test]
fn core_types_by_frequency() {
    let average = Some((2500, 5000));
    assert_eq!(classify_core(average, 5000, 1), CoreType::Big { turbo: true });
    assert_eq!(classify_core(average, 4999, 2500), CoreType::Big { turbo: false });
    assert_eq!(classify_core(average, 4999, 2499), CoreType::Little);
    assert_eq!(classify_core(None, 0, 0), CoreType::Big { turbo: false });
}

#[test]
fn hybrid_host_has_little_cores() {
    let mut sys = host(vec![(0, 0, 0), (1, 1, 0), (2, 2, 0), (3, 3, 0)], "0-3");
    set_freq(&mut sys, 0, 5000, 3000);
    set_freq(&mut sys, 1, 4000, 3000);
    set_freq(&mut sys, 2, 4000, 2000);
    set_freq(&mut sys, 3, 4000, 2000);
    let topo = Topology::new(&sys).unwrap();
    assert_eq!(topo.all_cores[&0].core_type, CoreType::Big { turbo: true });
    assert_eq!(topo.all_cores[&1].core_type, CoreType::Big { turbo: false });
    assert_eq!(topo.all_cores[&2].core_type, CoreType::Little);
    assert_eq!(topo.all_cpus[&3].core_type, CoreType::Little);
    assert!(topo.has_little_cores());
}

#[test]
fn little_cores_alone_are_not_hybrid() {
    let mut sys = host(vec![(0, 0, 0), (1, 1, 0)], "1");
    set_freq(&mut sys, 0, 5000, 3000);
    set_freq(&mut sys, 1, 4000, 2000);
    let topo = Topology::new(&sys).unwrap();
    assert_eq!(keys(&topo.all_cores), vec![0]);
    assert_eq!(topo.all_cores[&0].core_type, CoreType::Little);
    assert!(!topo.has_little_cores());
    sys.online = Some("0-1".to_string());
    assert!(Topology::new(&sys).unwrap().has_little_cores());
}

#[test]
fn topology_without_cores_is_not_hybrid() {
    let topo = Topology::new(&host(vec![(0, 0, 0)], "5")).unwrap();
    assert_eq!(topo.all_cores.len(), 0);
    assert!(!topo.has_little_cores());
}

#[test]
fn without_frequencies_no_core_is_little() {
    let topo = Topology::new(&smt_host()).unwrap();
    assert!(!topo.has_little_cores());
    for core in topo.all_cores.values() {
        assert_eq!(core.core_type, CoreType::Big { turbo: false });
    }
}

#[test]
fn numa_nodes_share_the_numbering() {
    let mut sys = host(vec![(0, 0, 0), (1, 1, 0), (2, 0, 0), (3, 1, 0)], "0-3");
    add_node(&mut sys, "node0", vec!["cpu0", "cpu1"]);
    add_node(&mut sys, "node2", vec!["cpu2", "cpu3"]);
    let topo = Topology::new(&sys).unwrap();
    assert_eq!(keys(&topo.nodes), vec![0, 2]);
    assert_eq!(keys(&topo.all_llcs), vec![0, 1]);
    assert_eq!(keys(&topo.all_cores), vec![0, 1, 2, 3]);
    assert_eq!(keys(&topo.nodes[&2].llcs), vec![1]);
    assert_eq!(keys(&topo.nodes[&2].all_cores), vec![2, 3]);
    assert_eq!(topo.nodes[&2].span.cpu_ids(), vec![2, 3]);
    assert_eq!(topo.all_cores[&2].kernel_id, 0);
    assert_eq!(topo.all_cpus[&3].node_id, 2);
}

#[test]
fn numa_node_without_cpus_stays() {
    let mut sys = host(vec![(0, 0, 0)], "0");
    add_node(&mut sys, "node0", vec!["cpu0"]);
    add_node(&mut sys, "node1", vec![]);
    let topo = Topology::new(&sys).unwrap();
    assert_eq!(keys(&topo.nodes), vec![0, 1]);
    assert_eq!(topo.nodes[&1].llcs.len(), 0);
    assert_eq!(topo.nodes[&1].span.weight(), 0);
}

#[test]
fn last_directory_of_a_node_counts() {
    let mut sys = host(vec![(0, 0, 0), (1, 1, 0)], "0-1");
    add_node(&mut sys, "node1", vec!["cpu0"]);
    add_node(&mut sys, "node01", vec!["cpu1"]);
    let topo = Topology::new(&sys).unwrap();
    assert_eq!(keys(&topo.nodes), vec![1]);
    assert_eq!(keys(&topo.all_cpus), vec![1]);
    assert_eq!(keys(&topo.all_cores), vec![1]);
}

#[test]
fn directory_that_is_repeated_loses_nothing() {
    let mut sys = host(vec![(0, 0, 0), (1, 1, 3)], "0-1");
    add_node(&mut sys, "node1", vec!["cpu0", "cpu1"]);
    add_node(&mut sys, "node01", vec!["cpu1", "cpu0"]);
    let topo = Topology::new(&sys).unwrap();
    assert_eq!(keys(&topo.all_cpus), vec![0, 1]);
    assert_eq!(keys(&topo.all_cores), vec![0, 1]);
    assert_eq!(keys(&topo.all_llcs), vec![0, 1]);
    assert_eq!(topo.all_cores[&0].kernel_id, 0);
}

#[test]
fn unused_ids_behind_the_used_ones_leave_no_gap() {
    let mut sys = host(vec![(0, 0, 0), (1, 1, 3)], "0-1");
    add_node(&mut sys, "node1", vec!["cpu0", "cpu1"]);
    add_node(&mut sys, "node01", vec!["cpu0"]);
    let topo = Topology::new(&sys).unwrap();
    assert_eq!(keys(&topo.all_cpus), vec![0]);
    assert_eq!(keys(&topo.all_cores), vec![0]);
    assert_eq!(keys(&topo.all_llcs), vec![0]);
}

#[test]
fn mapping_is_by_position_where_ids_have_a_gap() {
    let mut sys = host(vec![(0, 0, 0), (1, 1, 0)], "0-1");
    add_node(&mut sys, "node1", vec!["cpu0"]);
    add_node(&mut sys, "node01", vec!["cpu1"]);
    let topo = Topology::new(&sys).unwrap();
    assert_eq!(topo.all_cpus[&1].core_id, 1);
    let mapping = TopologyMap::new(&topo).unwrap().cpu_core_mapping();
    assert_eq!(mapping, vec![0, 0]);
}

#[test]
fn flattened_topology_has_the_same_cpus() {
    let mut sys = smt_host();
    add_node(&mut sys, "node0", vec!["cpu0", "cpu1", "cpu4", "cpu5"]);
    add_node(&mut sys, "node1", vec!["cpu2", "cpu3", "cpu6", "cpu7"]);
    let topo = Topology::new(&sys).unwrap();
    let flat = Topology::with_flattened_llc_node(&sys).unwrap();
    assert_eq!(topo.span, flat.span);
    assert_eq!(keys(&topo.all_cpus), keys(&flat.all_cpus));
}

#[test]
fn flattened_topology_has_one_llc() {
    let mut sys = smt_host();
    add_node(&mut sys, "node0", vec!["cpu0"]);
    add_node(&mut sys, "node1", vec!["cpu0"]);
    let topo = Topology::with_flattened_llc_node(&sys).unwrap();
    assert_eq!(keys(&topo.nodes), vec![0]);
    assert_eq!(keys(&topo.all_llcs), vec![0]);
    assert_eq!(topo.all_llcs[&0].kernel_id, 0);
    assert_eq!(topo.all_llcs[&0].span.weight(), 8);
    assert_eq!(topo.all_cpus[&2].l3_id, 7);
    assert_eq!(topo.all_cpus[&2].llc_id, 0);
}

#[test]
fn flattened_topology_joins_a_core_in_two_llcs() {
    let sys = host(vec![(0, 0, 0), (1, 0, 1)], "0-1");
    assert_eq!(Topology::new(&sys).err(), Some(TopologyError::DuplicateCore { id: 0 }));
    let topo = Topology::with_flattened_llc_node(&sys).unwrap();
    assert_eq!(keys(&topo.all_cores[&0].cpus), vec![0, 1]);
}

#[test]
fn online_list_must_be_readable() {
    let mut sys = smt_host();
    sys.online = None;
    assert_eq!(Topology::new(&sys).err(), Some(TopologyError::OnlineUnreadable));
    assert_eq!(
        Topology::with_flattened_llc_node(&sys).err(),
        Some(TopologyError::OnlineUnreadable)
    );
}

#[test]
fn cpu_directory_must_exist() {
    let mut sys = smt_host();
    sys.has_cpu_dir = false;
    assert_eq!(Topology::new(&sys).err(), Some(TopologyError::NoCpuDirectory));
}

#[test]
fn cpu_paths_must_end_in_an_id() {
    let mut sys = smt_host();
    sys.cpu_dirs[3].path = "/sys/devices/system/cpu/cpu3x".to_string();
    assert_eq!(
        Topology::new(&sys).err(),
        Some(TopologyError::ParseCpuId { path: "/sys/devices/system/cpu/cpu3x".to_string() })
    );
    let mut sys = host(vec![(0, 0, 0)], "0");
    add_node(&mut sys, "node0", vec!["cpu0", "cpu1x"]);
    assert_eq!(
        Topology::new(&sys).err(),
        Some(TopologyError::ParseCpuId {
            path: "/sys/devices/system/node/node0/cpu1x".to_string()
        })
    );
}

#[test]
fn node_paths_must_end_in_an_id() {
    let mut sys = host(vec![(0, 0, 0)], "0");
    add_node(&mut sys, "node_old", vec![]);
    assert_eq!(
        Topology::new(&sys).err(),
        Some(TopologyError::ParseNodeId { path: "/sys/devices/system/node/node_old".to_string() })
    );
}

#[test]
fn online_cpu_needs_a_core() {
    let mut sys = smt_host();
    sys.cpus.get_mut(&5).unwrap().core_id = None;
    assert_eq!(Topology::new(&sys).err(), Some(TopologyError::CoreIdUnreadable { cpu: 5 }));
}

#[test]
fn node_cannot_have_a_cpu_twice() {
    let mut sys = host(vec![(0, 0, 0), (1, 1, 0)], "0-1");
    add_node(&mut sys, "node3", vec!["cpu1", "cpu0", "cpu01"]);
    assert_eq!(Topology::new(&sys).err(), Some(TopologyError::NodeHasCpu { node: 3, cpu: 1 }));
}

#[test]
fn cpu_cannot_be_in_two_nodes() {
    let mut sys = host(vec![(0, 0, 0), (1, 1, 0)], "0-1");
    add_node(&mut sys, "node0", vec!["cpu0", "cpu1"]);
    add_node(&mut sys, "node1", vec!["cpu1"]);
    assert_eq!(Topology::new(&sys).err(), Some(TopologyError::DuplicateCpu { id: 1 }));
}

#[test]
fn offline_cpu_may_be_in_two_nodes() {
    let mut sys = host(vec![(0, 0, 0), (1, 1, 0)], "0");
    add_node(&mut sys, "node0", vec!["cpu0", "cpu1"]);
    add_node(&mut sys, "node1", vec!["cpu1", "cpu1"]);
    let topo = Topology::new(&sys).unwrap();
    assert_eq!(keys(&topo.all_cpus), vec![0]);
}

fn node_with_llc(id: usize, llc_id: usize) -> Node {
    let llc = Llc {
        id: llc_id,
        kernel_id: 0,
        cores: BTreeMap::new(),
        span: Cpumask::new(4),
        node_id: id,
        all_cpus: BTreeMap::new(),
    };
    let mut llcs = BTreeMap::new();
    llcs.insert(llc_id, Arc::new(llc));
    Node {
        id,
        llcs,
        span: Cpumask::new(4),
        all_cores: BTreeMap::new(),
        all_cpus: BTreeMap::new(),
        gpus: BTreeMap::new(),
    }
}

#[test]
fn llc_cannot_be_in_two_nodes() {
    let mut nodes = BTreeMap::new();
    nodes.insert(0, node_with_llc(0, 3));
    nodes.insert(1, node_with_llc(1, 3));
    assert_eq!(
        Topology::instantiate(Cpumask::new(4), nodes).err(),
        Some(TopologyError::DuplicateLlc { id: 3 })
    );
}

#[test]
fn nodes_with_different_llcs_go_together() {
    let mut nodes = BTreeMap::new();
    nodes.insert(0, node_with_llc(0, 3));
    nodes.insert(1, node_with_llc(1, 2));
    let mut span = Cpumask::new(4);
    span.set_cpu(2).unwrap();
    let topo = Topology::instantiate(span, nodes).unwrap();
    assert_eq!(keys(&topo.all_llcs), vec![2, 3]);
    assert_eq!(topo.nr_cpus_online, 1);
}

#[test]
fn bits_of_online_cpus() {
    let topo = Topology::new(&host(vec![(1, 0, 0), (3, 1, 0)], "1,3")).unwrap();
    assert_eq!(topo.cpus_bitvec(5).to_vec(), vec![false, true, false, true, false]);
}

#[test]
fn siblings_are_each_other() {
    let topo = Topology::new(&smt_host()).unwrap();
    let siblings = topo.sibling_cpus(9);
    assert_eq!(siblings, vec![4, 5, 6, 7, 0, 1, 2, 3, -1]);
    for cpu in 0..8 {
        assert_eq!(siblings[siblings[cpu] as usize], cpu as i32);
    }
}

#[test]
fn siblings_are_the_two_lowest_cpus_of_a_core() {
    let topo = Topology::new(&host(vec![(0, 1, 0), (2, 0, 0), (3, 0, 0), (4, 0, 0)], "0-4")).unwrap();
    assert_eq!(topo.sibling_cpus(5), vec![-1, -1, 3, 2, -1]);
}

#[test]
fn gpus_are_gathered_from_all_nodes() {
    let mut sys = host(vec![(0, 0, 0)], "0");
    sys.gpus.insert(0, vec![Gpu { index: 4, node_id: 0 }]);
    sys.gpus.insert(1, vec![Gpu { index: 2, node_id: 1 }, Gpu { index: 7, node_id: 1 }]);
    sys.gpus.insert(5, vec![Gpu { index: 9, node_id: 5 }]);
    let topo = Topology::new(&sys).unwrap();
    assert_eq!(keys(&topo.gpus()), vec![4]);
    add_node(&mut sys, "node0", vec!["cpu0"]);
    add_node(&mut sys, "node1", vec![]);
    let topo = Topology::new(&sys).unwrap();
    assert_eq!(keys(&topo.nodes[&1].gpus), vec![2, 7]);
    let gpus = topo.gpus();
    assert_eq!(keys(&gpus), vec![2, 4, 7]);
    assert_eq!(gpus[&2].node_id, 1);
}

#[test]
fn clones_hold_the_same() {
    let topo = Topology::new(&smt_host()).unwrap();
    let core: Core = (*topo.all_cores[&2]).clone();
    assert_eq!(core, *topo.all_cores[&2]);
    let llc: Llc = (*topo.all_llcs[&1]).clone();
    assert_eq!(keys(&llc.cores), vec![2, 3]);
    let node: Node = topo.nodes[&0].clone();
    assert_eq!(node.span, topo.nodes[&0].span);
}
