use scx_topology::{CpuAttrs, CpuDir, Sysfs, Topology, TopologyMap};
use std::collections::BTreeMap;

fn topology(cpus: Vec<(usize, usize)>, online: &str) -> Topology {
    let mut sys = Sysfs {
        nr_cpu_ids: 16,
        online: Some(online.to_string()),
        has_node_dir: false,
        has_cpu_dir: true,
        node_dirs: vec![],
        cpu_dirs: vec![],
        cpus: BTreeMap::new(),
        gpus: BTreeMap::new(),
    };
    for (id, core) in cpus {
        sys.cpu_dirs.push(CpuDir {
            path: format!("/sys/devices/system/cpu/cpu{}", id),
            max_freq: None,
            base_freq: None,
        });
        sys.cpus.insert(
            id,
            CpuAttrs {
                core_id: Some(core),
                l2_id: None,
                l3_id: None,
                min_freq: None,
                max_freq: None,
                base_freq: None,
                trans_lat_ns: None,
            },
        );
    }
    Topology::new(&sys).unwrap()
}

#[test]
fn map_has_a_row_for_each_core() {
    let topo = topology(vec![(0, 0), (1, 1), (2, 0), (3, 1)], "0-3");
    let map = TopologyMap::new(&topo).unwrap();
    let rows: Vec<&Vec<usize>> = map.iter().collect();
    assert_eq!(rows, vec![&vec![0, 2], &vec![1, 3]]);
}

#[test]
fn map_of_an_empty_topology_is_empty() {
    let topo = topology(vec![(0, 0)], "5");
    let map = TopologyMap::new(&topo).unwrap();
    assert_eq!(map.iter().count(), 0);
    assert_eq!(map.core_cpus_bitvec(4).len(), 0);
    assert_eq!(map.cpu_core_mapping(), vec![]);
}

#[test]
fn bits_of_each_core() {
    let topo = topology(vec![(0, 0), (1, 1), (2, 0), (3, 1)], "0-3");
    let bits = TopologyMap::new(&topo).unwrap().core_cpus_bitvec(5);
    assert_eq!(bits.len(), 2);
    assert_eq!(bits[0].to_vec(), vec![true, false, true, false, false]);
    assert_eq!(bits[1].to_vec(), vec![false, true, false, true, false]);
}

#[test]
fn mapping_gives_the_core_of_each_cpu() {
    let topo = topology(vec![(0, 4), (1, 9), (2, 4), (3, 9)], "0-3");
    let mapping = TopologyMap::new(&topo).unwrap().cpu_core_mapping();
    assert_eq!(mapping, vec![0, 1, 0, 1]);
    for (id, cpu) in &topo.all_cpus {
        assert_eq!(mapping[*id], cpu.core_id);
    }
}

#[test]
fn mapping_is_zero_for_absent_cpus() {
    let topo = topology(vec![(1, 0), (4, 1)], "1,4");
    let mapping = TopologyMap::new(&topo).unwrap().cpu_core_mapping();
    assert_eq!(mapping, vec![0, 0, 0, 0, 1]);
}
