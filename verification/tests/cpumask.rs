use scx_topology::{Cpumask, TopologyError};

#[test]
fn mask_sets_and_counts() {
    let mut mask = Cpumask::new(8);
    assert_eq!(mask.nr_cpu_ids(), 8);
    assert_eq!(mask.weight(), 0);
    mask.set_cpu(5).unwrap();
    mask.set_cpu(0).unwrap();
    mask.set_cpu(5).unwrap();
    assert_eq!(mask.weight(), 2);
    assert_eq!(mask.cpu_ids(), vec![0, 5]);
    assert!(mask.test_cpu(5));
    assert!(!mask.test_cpu(4));
    assert!(!mask.test_cpu(8));
}

#[test]
fn mask_refuses_an_id_beyond_its_limit() {
    let mut mask = Cpumask::new(4);
    assert_eq!(
        mask.set_cpu(4),
        Err(TopologyError::InvalidCpu { cpu: 4, nr_cpu_ids: 4 })
    );
    assert_eq!(mask.weight(), 0);
    assert_eq!(mask.clone(), Cpumask::new(4));
}
