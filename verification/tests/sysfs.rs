use scx_topology::sysfs::{
    avg_cpu_freq, cpus_online, nr_cpu_ids, read_cpu_ids, scan_cpu_dir, scan_node_cpu, scan_node_dir,
};
use scx_topology::{CpuDir, NodeDir, Sysfs, TopologyError};
use std::collections::BTreeMap;

fn dir(path: &str, max_freq: Option<usize>, base_freq: Option<usize>) -> CpuDir {
    CpuDir { path: path.to_string(), max_freq, base_freq }
}

fn empty_sysfs() -> Sysfs {
    Sysfs {
        nr_cpu_ids: 4,
        online: Some("0-3".to_string()),
        has_node_dir: false,
        has_cpu_dir: true,
        node_dirs: vec![],
        cpu_dirs: vec![],
        cpus: BTreeMap::new(),
        gpus: BTreeMap::new(),
    }
}

#[test]
fn online_list_is_the_union_of_its_ranges() {
    let mask = cpus_online(&Some("0-2,4, 6-7\n".to_string()), 8).unwrap();
    assert_eq!(mask.cpu_ids(), vec![0, 1, 2, 4, 6, 7]);
    assert_eq!(mask.nr_cpu_ids(), 8);
}

#[test]
fn online_list_may_overlap_and_run_backwards() {
    let mask = cpus_online(&Some("1-3,2-4,9-1".to_string()), 8).unwrap();
    assert_eq!(mask.cpu_ids(), vec![1, 2, 3, 4]);
}

#[test]
fn online_list_that_cannot_be_read() {
    assert_eq!(cpus_online(&None, 8).err(), Some(TopologyError::OnlineUnreadable));
}

#[test]
fn online_list_with_a_group_that_is_none() {
    assert_eq!(
        cpus_online(&Some("0-1, x ,9".to_string()), 8).err(),
        Some(TopologyError::ParseOnline { group: "x".to_string() })
    );
    assert_eq!(
        cpus_online(&Some("\n".to_string()), 8).err(),
        Some(TopologyError::ParseOnline { group: String::new() })
    );
}

#[test]
fn online_list_with_an_id_beyond_the_limit() {
    assert_eq!(
        cpus_online(&Some("0-9".to_string()), 8).err(),
        Some(TopologyError::InvalidCpu { cpu: 8, nr_cpu_ids: 8 })
    );
    assert_eq!(
        cpus_online(&Some("12-13,x".to_string()), 8).err(),
        Some(TopologyError::InvalidCpu { cpu: 12, nr_cpu_ids: 8 })
    );
}

#[test]
fn ids_in_paths() {
    assert_eq!(scan_cpu_dir("/sys/devices/system/cpu/cpu12"), Some(12));
    assert_eq!(scan_cpu_dir(" /sys/devices/system/cpu/cpu12 "), Some(12));
    assert_eq!(scan_cpu_dir("/sys/devices/system/cpu/cpu1x"), None);
    assert_eq!(scan_node_dir("/sys/devices/system/node/node1"), Some(1));
    assert_eq!(scan_node_dir("/sys/devices/system/node/nodex"), None);
    assert_eq!(scan_node_cpu("/sys/devices/system/node/node1/cpu12"), Some(12));
    assert_eq!(scan_node_cpu("/sys/devices/system/node/nodex/cpu12"), None);
    assert_eq!(scan_node_cpu("/sys/devices/system/node/node1/cpu1/2"), None);
}

#[test]
fn cpu_ids_are_sorted_and_kept_as_often_as_they_are() {
    let dirs = vec![
        dir("/sys/devices/system/cpu/cpu10", None, None),
        dir("/sys/devices/system/cpu/cpu2", None, None),
        dir("/sys/devices/system/cpu/cpu02", None, None),
        dir("/sys/devices/system/cpu/cpu0", None, None),
    ];
    let ids = read_cpu_ids(&dirs).unwrap();
    assert_eq!(ids, vec![0, 2, 2, 10]);
    assert_eq!(nr_cpu_ids(&ids), 11);
}

#[test]
fn cpu_directory_without_an_id() {
    let dirs = vec![
        dir("/sys/devices/system/cpu/cpu0", None, None),
        dir("/sys/devices/system/cpu/cpu1-old ", None, None),
    ];
    assert_eq!(
        read_cpu_ids(&dirs),
        Err(TopologyError::ParseCpuId { path: "/sys/devices/system/cpu/cpu1-old".to_string() })
    );
}

#[test]
fn average_is_over_cpus_with_a_base_frequency() {
    let dirs = vec![
        dir("a", Some(5000), Some(3001)),
        dir("b", Some(4000), None),
        dir("c", None, None),
        dir("d", Some(9000), Some(0)),
    ];
    assert_eq!(avg_cpu_freq(&dirs), Some((3500, 5000)));
}

#[test]
fn average_is_unknown_without_frequencies() {
    assert_eq!(avg_cpu_freq(&vec![]), None);
    assert_eq!(avg_cpu_freq(&vec![dir("a", None, None), dir("b", Some(0), None)]), None);
}

#[test]
fn range_of_the_online_list() {
    let mut sys = empty_sysfs();
    assert!(sys.is_in_range(false));
    sys.online = Some(format!("{}", usize::MAX));
    assert!(!sys.is_in_range(false));
    sys.online = Some(format!("x,{}", usize::MAX));
    assert!(sys.is_in_range(false));
}

#[test]
fn range_of_the_frequencies() {
    let mut sys = empty_sysfs();
    sys.cpu_dirs = vec![dir("a", None, Some(usize::MAX)), dir("b", None, Some(1))];
    assert!(!sys.is_in_range(false));
    assert!(!sys.is_in_range(true));
    sys.has_node_dir = true;
    assert!(sys.is_in_range(false));
    sys.node_dirs =
        vec![NodeDir { path: "/sys/devices/system/node/node0".to_string(), cpu_paths: vec![] }];
    assert!(!sys.is_in_range(false));
}
