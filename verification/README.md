# scx_topology

The topology of a Linux host as sysfs describes it: NUMA nodes, last-level caches,
cores and CPUs, with the masks and indices that schedulers need. The library is
verified with Verus.

- `src/sysfs.rs`, `src/text.rs`: what sysfs says as plain values, and how its lists,
  paths and numbers are read.
- `src/cpumask.rs`, `src/bits.rs`, `src/order.rs`: masks, bit vectors and ascending
  lists of CPUs.
- `src/hierarchy.rs`, `src/builder.rs`: the objects of a topology, and how they are put
  together CPU by CPU.
- `src/topology.rs`, `src/topology_map.rs`: the topology with its skip indices, the
  queries on it, and the map from cores to CPUs.
- `src/soundness.rs`, `src/indices.rs`, `src/refusals.rs`, `src/laws.rs`: what holds of
  every topology, and when there is one.
- `app/`: reads sysfs of the running host and hands it to the library.
