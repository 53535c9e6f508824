use gem::aig::{node_of, DriverType, AIG};
use gem::hgr::process_partitions_from_hgr_parts_file;
use gem::hgr::{parse_index, parts_from_lines};
use gem::merge::{
    process_partitions, process_partitions_conditional, process_partitions_conditional_skip,
};
use gem::pe::Partition;
use gem::staging::{count_pins, EndpointGroup, EndpointKind, StagedAIG, DFF};
use indexmap::IndexSet;

fn graph(drivers: Vec<DriverType>) -> AIG {
    let n = drivers.len();
    let mut feeds = vec![Vec::new(); n];
    for (u, driver) in drivers.iter().enumerate() {
        if let DriverType::AndGate(a, b) = driver {
            for lit in [a, b].into_iter().filter(|lit| **lit >= 2) {
                feeds[lit >> 1].push(u);
            }
        }
    }
    let mut fanouts_start = vec![0];
    let mut fanouts = Vec::new();
    for list in feeds {
        fanouts.extend(list);
        fanouts_start.push(fanouts.len());
    }
    AIG { num_aigpins: n - 1, drivers, fanouts_start, fanouts }
}

/// `inputs` ports, and gates that read earlier nodes.
fn random_graph(inputs: usize, gates: usize, seed: usize) -> AIG {
    let mut x = seed * 2 + 1;
    let mut next = |bound: usize| {
        x = x.wrapping_mul(6364136223846793005).wrapping_add(1442695040888963407);
        (x >> 33) % bound
    };
    let mut drivers = vec![DriverType::Other];
    for i in 0..inputs {
        drivers.push(DriverType::InputPort(i));
    }
    for _ in 0..gates {
        let n = drivers.len() - 1;
        let near = n.min(60);
        let a = (n - next(near)) * 2 + next(2);
        let b = (1 + next(n)) * 2 + next(2);
        drivers.push(DriverType::AndGate(a, b));
    }
    graph(drivers)
}

fn outputs(nodes: &[usize]) -> StagedAIG {
    StagedAIG {
        primary_inputs: None,
        endpoints: nodes
            .iter()
            .map(|&n| EndpointGroup { kind: EndpointKind::PrimaryOutput(n * 2), inputs: vec![n] })
            .collect(),
    }
}

/// Every stage is a tree that reads known values, and the endpoints are written
/// out within the limit.
fn check_partition(aig: &AIG, staged: &StagedAIG, p: &Partition) {
    let mut known = IndexSet::new();
    if let Some(s) = &staged.primary_inputs {
        known.extend(s.iter().copied());
    }
    let mut written = IndexSet::new();
    let mut total = 0;
    let mut computed = IndexSet::new();
    for (k, stage) in p.stages.iter().enumerate() {
        assert_eq!(stage.hier.len(), 14);
        for (hi, row) in stage.hier.iter().enumerate() {
            assert_eq!(row.len(), 8192 >> hi);
        }
        for &nd in &stage.hier[0] {
            if nd != usize::MAX && nd != 0 && !known.contains(&nd) {
                assert!(!matches!(aig.drivers[nd], DriverType::AndGate(_, _)));
            }
        }
        for hi in 1..stage.hier.len() {
            let len = stage.hier[hi].len();
            for j in 0..len {
                let nd = stage.hier[hi][j];
                if nd == usize::MAX {
                    continue;
                }
                let (x, y) = (stage.hier[hi - 1][j], stage.hier[hi - 1][j + len]);
                let is_gate = match aig.drivers[nd] {
                    DriverType::AndGate(a, b) => x == a >> 1 && y == b >> 1,
                    _ => false,
                };
                assert!(is_gate || x == nd);
                if stage.write_outs.contains(&((j + len) / 32)) {
                    written.insert(nd);
                }
            }
        }
        assert!(stage.hier[1].iter().filter(|&&nd| nd != usize::MAX).count() <= 4095);
        let used = |nd: &usize| *nd != usize::MAX;
        let read: IndexSet<usize> = stage.hier[0].iter().copied().filter(used).collect();
        assert!(read.len() <= 8191);
        if k > 0 {
            let constants = aig.drivers.iter().any(|driver| match driver {
                DriverType::AndGate(a, b) => *a < 2 || *b < 2,
                _ => false,
            });
            assert!(read.iter().all(|nd| (*nd == 0 && constants) || computed.contains(nd)));
        }
        let held: IndexSet<usize> = stage.hier[1..].iter().flatten().copied().filter(used).collect();
        assert!(held.len() <= 4095);
        computed.extend(held);
        for row in &stage.hier[1..] {
            known.extend(row.iter().copied().filter(|&nd| nd != usize::MAX));
        }
        total += stage.write_outs.len();
        assert!(stage.write_outs.iter().all(|&w| w < 256));
    }
    assert!(total <= 256);
    assert!(written.len() <= 32 * total);
    for &e in &p.endpoints {
        for nd in &staged.endpoints[e].inputs {
            assert!(written.contains(nd));
        }
    }
}

#[test]
fn one_gate_takes_one_stage() {
    let aig = graph(vec![
        DriverType::Other,
        DriverType::InputPort(0),
        DriverType::InputPort(1),
        DriverType::AndGate(2, 5),
    ]);
    let staged = outputs(&[3]);
    let p = Partition::build_one(&aig, &staged, &vec![0]).unwrap();
    assert_eq!(p.endpoints, vec![0]);
    assert_eq!(p.stages.len(), 1);
    // nothing is left for another stage, so all groups of row 1 are written out.
    assert_eq!(p.stages[0].write_outs, (128..256).collect::<Vec<_>>());
    check_partition(&aig, &staged, &p);
}

#[test]
fn no_endpoints_take_no_stage() {
    let aig = graph(vec![DriverType::Other, DriverType::InputPort(0)]);
    let staged = outputs(&[1]);
    let p = Partition::build_one(&aig, &staged, &vec![]).unwrap();
    assert!(p.endpoints.is_empty());
    assert!(p.stages.is_empty());
}

#[test]
fn a_long_chain_takes_several_stages() {
    let mut drivers = vec![DriverType::Other];
    for i in 0..41 {
        drivers.push(DriverType::InputPort(i));
    }
    drivers.push(DriverType::AndGate(2, 4));
    for i in 2..41 {
        let last = drivers.len() - 1;
        drivers.push(DriverType::AndGate(last * 2 + 1, (i + 1) * 2));
    }
    let last = drivers.len() - 1;
    let aig = graph(drivers);
    let staged = outputs(&[last]);
    let p = Partition::build_one(&aig, &staged, &vec![0]).unwrap();
    assert!(p.stages.len() >= 4, "40 levels do not fit into 3 stages of 13");
    check_partition(&aig, &staged, &p);
}

#[test]
fn later_stages_read_what_earlier_ones_computed() {
    // the last gate of a chain reads a port that no other gate reads.
    let mut drivers = vec![DriverType::Other];
    for i in 0..31 {
        drivers.push(DriverType::InputPort(i));
    }
    drivers.push(DriverType::AndGate(2, 4));
    for i in 2..31 {
        let last = drivers.len() - 1;
        drivers.push(DriverType::AndGate(last * 2, (i + 1) * 2));
    }
    let last = drivers.len() - 1;
    let aig = graph(drivers);
    let staged = outputs(&[last]);
    let p = Partition::build_one(&aig, &staged, &vec![0]).unwrap();
    assert!(p.stages.len() > 1);
    let first = &p.stages[0].hier;
    for port in 1..32 {
        assert!(first[1..].iter().flatten().any(|&nd| nd == port) || first[0].contains(&port));
    }
    assert!(first[1].contains(&31), "the last port waits in row 1");
    check_partition(&aig, &staged, &p);
}

#[test]
fn a_constant_above_a_full_tree_can_be_mapped() {
    // a chain of 13 gates, and a gate over the last of them and a constant.
    let mut drivers = vec![DriverType::Other];
    for i in 0..14 {
        drivers.push(DriverType::InputPort(i));
    }
    drivers.push(DriverType::AndGate(2, 4));
    for i in 2..14 {
        let last = drivers.len() - 1;
        drivers.push(DriverType::AndGate(last * 2, (i + 1) * 2));
    }
    let chain = drivers.len() - 1;
    drivers.push(DriverType::AndGate(chain * 2, 1));
    let aig = graph(drivers);
    let staged = outputs(&[chain + 1]);
    let p = Partition::build_one(&aig, &staged, &vec![0]).unwrap();
    assert_eq!(p.stages.len(), 2);
    assert_eq!(p.stages[0].hier[13][0], chain);
    let place = p.stages[1].hier[1].iter().position(|&nd| nd == chain + 1).unwrap();
    assert_eq!(p.stages[1].hier[0][place], chain);
    assert_eq!(p.stages[1].hier[0][place + 4096], 0);
    check_partition(&aig, &staged, &p);
}

#[test]
fn a_constant_that_waits_for_its_operand_can_be_mapped() {
    // a chain of 13 gates, and one of 12 whose last gate reads a constant.  The
    // first takes all cells of row 12, so the second waits for its last gate.
    let mut drivers = vec![DriverType::Other];
    for i in 0..28 {
        drivers.push(DriverType::InputPort(i));
    }
    let mut ends = Vec::new();
    for (port, gates) in [(1, 13), (15, 11)] {
        drivers.push(DriverType::AndGate(port * 2, (port + 1) * 2));
        for i in 1..gates {
            let last = drivers.len() - 1;
            drivers.push(DriverType::AndGate(last * 2, (port + 1 + i) * 2));
        }
        ends.push(drivers.len() - 1);
    }
    drivers.push(DriverType::AndGate(ends[1] * 2, 1));
    let deep = drivers.len() - 1;
    let aig = graph(drivers);
    let staged = outputs(&[ends[0], deep]);
    let p = Partition::build_one(&aig, &staged, &vec![0, 1]).unwrap();
    assert_eq!(p.stages[0].hier[13][0], ends[0]);
    assert!(p.stages[0].hier[11].contains(&ends[1]));
    assert!(p.stages[0].hier.iter().all(|row| !row.contains(&deep)));
    assert!(p.stages[1].hier[1].contains(&deep));
    check_partition(&aig, &staged, &p);
}

#[test]
fn a_constant_that_is_wanted_itself_can_be_placed() {
    // gate 4 reads gate 3 and a constant; the endpoint reads node 0, too.
    let aig = graph(vec![
        DriverType::Other,
        DriverType::InputPort(0),
        DriverType::InputPort(1),
        DriverType::AndGate(2, 4),
        DriverType::AndGate(6, 1),
    ]);
    let staged = StagedAIG {
        primary_inputs: None,
        endpoints: vec![EndpointGroup { kind: EndpointKind::RAMBlock(0), inputs: vec![4, 0] }],
    };
    let p = Partition::build_one(&aig, &staged, &vec![0]).unwrap();
    assert_eq!(p.stages.len(), 1);
    assert_eq!(p.stages[0].hier[2][0], 4);
    assert_eq!(p.stages[0].hier[1][0], 3);
    assert_eq!(p.stages[0].hier[1][2048], 0);
    check_partition(&aig, &staged, &p);
}

#[test]
fn random_graphs_are_mapped_into_trees() {
    for seed in 0..3 {
        let aig = random_graph(50, 900, seed);
        let n = aig.num_aigpins;
        let nodes: Vec<usize> = (0..30).map(|i| n - i * 11).collect();
        let staged = outputs(&nodes);
        let ids: Vec<usize> = (0..nodes.len()).collect();
        let p = Partition::build_one(&aig, &staged, &ids).unwrap();
        assert_eq!(p.endpoints, ids);
        check_partition(&aig, &staged, &p);
    }
}

#[test]
fn values_of_earlier_stages_are_inputs() {
    let aig = graph(vec![
        DriverType::Other,
        DriverType::InputPort(0),
        DriverType::InputPort(1),
        DriverType::AndGate(2, 4),
        DriverType::AndGate(6, 4),
    ]);
    let mut staged = outputs(&[4]);
    let mut sources = IndexSet::new();
    sources.insert(3);
    staged.primary_inputs = Some(sources);
    let p = Partition::build_one(&aig, &staged, &vec![0]).unwrap();
    check_partition(&aig, &staged, &p);
    let cells = &p.stages[0].hier;
    assert!(cells[0].contains(&3));
    assert!(!cells[0].contains(&1));
}

fn memories(n: usize) -> StagedAIG {
    StagedAIG {
        primary_inputs: None,
        endpoints: (0..n)
            .map(|_| EndpointGroup { kind: EndpointKind::RAMBlock(0), inputs: vec![1] })
            .collect(),
    }
}

#[test]
fn sixty_four_memories_are_the_most() {
    let aig = graph(vec![DriverType::Other, DriverType::InputPort(0)]);
    let ids: Vec<usize> = (0..65).collect();
    let staged = memories(65);
    assert!(Partition::build_one(&aig, &staged, &ids).is_none());
    let p = Partition::build_one(&aig, &staged, &ids[..64].to_vec()).unwrap();
    check_partition(&aig, &staged, &p);
}

#[test]
fn repeated_outputs_are_counted() {
    let dff = |d_iv: usize, en_iv: usize| EndpointGroup {
        kind: EndpointKind::DFF(DFF { d_iv, en_iv, q: 0 }),
        inputs: vec![d_iv / 2, en_iv / 2],
    };
    let staged = StagedAIG {
        primary_inputs: None,
        endpoints: vec![
            dff(2, 4),
            dff(3, 4),
            dff(2, 4),
            EndpointGroup { kind: EndpointKind::StagedIOPin(1), inputs: vec![1] },
            EndpointGroup { kind: EndpointKind::PrimaryOutput(2), inputs: vec![1] },
            EndpointGroup { kind: EndpointKind::RAMBlock(0), inputs: vec![2] },
        ],
    };
    // conditions of node 1: enabled, enabled and inverted, always; the staged
    // pin and the output share theirs.
    assert_eq!(staged.count_outputs(&vec![0, 1, 2, 3, 4, 5]), (1, 2));
    assert_eq!(staged.count_outputs(&vec![0, 2]), (0, 0));
    assert_eq!(staged.get_endpoint_group(5).kind, EndpointKind::RAMBlock(0));
    assert_eq!(staged.num_endpoint_groups(), 6);
    let sub = staged.to_endpoint_subset(&vec![5, 1]);
    assert_eq!(sub.num_endpoint_groups(), 2);
    assert_eq!(sub.get_endpoint_group(0).kind, EndpointKind::RAMBlock(0));
    let mut pins = Vec::new();
    staged.collect_inputs(&vec![0, 5], &mut pins);
    assert_eq!(pins, vec![1, 2, 2]);
    assert_eq!(count_pins(&pins, 3), vec![0, 1, 2]);
}

#[test]
fn traversal_is_topological() {
    let aig = random_graph(10, 200, 7);
    let ends = vec![aig.num_aigpins, aig.num_aigpins - 5];
    let order = aig.topo_traverse_generic(&ends, None);
    let mut seen = IndexSet::new();
    for &u in &order {
        if let DriverType::AndGate(a, b) = aig.drivers[u] {
            assert!(seen.contains(&node_of(a)) && seen.contains(&node_of(b)));
        }
        assert!(seen.insert(u));
    }
    assert!(seen.contains(&ends[0]) && seen.contains(&ends[1]));
    let mut stops = IndexSet::new();
    stops.insert(ends[0]);
    assert_eq!(aig.topo_traverse_generic(&vec![ends[0]], Some(&stops)), vec![ends[0]]);
}

fn stages_fall(ps: &[Partition]) -> bool {
    ps.windows(2).all(|w| w[0].stages.len() >= w[1].stages.len())
}

fn all_endpoints(ps: &[Partition]) -> Vec<usize> {
    let mut ids: Vec<usize> = ps.iter().flat_map(|p| p.endpoints.iter().copied()).collect();
    ids.sort();
    ids
}

#[test]
fn merging_keeps_the_endpoints() {
    let aig = random_graph(40, 600, 3);
    let n = aig.num_aigpins;
    let nodes: Vec<usize> = (0..24).map(|i| n - i * 7).collect();
    let staged = outputs(&nodes);
    let parts: Vec<Vec<usize>> = (0..8).map(|k| (0..3).map(|i| k * 3 + i).collect()).collect();
    let want: Vec<usize> = (0..24).collect();
    let plain = process_partitions(&aig, &staged, parts.clone(), 0).unwrap();
    let relaxed = process_partitions_conditional(&aig, &staged, parts.clone(), 0).unwrap();
    let skipping = process_partitions_conditional_skip(&aig, &staged, parts.clone(), 0).unwrap();
    for ps in [&plain, &relaxed, &skipping] {
        assert!(ps.len() <= 8);
        assert_eq!(all_endpoints(ps), want);
        assert!(stages_fall(ps));
        for p in ps.iter() {
            check_partition(&aig, &staged, p);
        }
    }
    let most = parts
        .iter()
        .map(|p| Partition::build_one(&aig, &staged, p).unwrap().stages.len())
        .max()
        .unwrap();
    assert!(plain.iter().all(|p| p.stages.len() <= most));
    // nothing stands in the way of merging all of these small parts.
    assert_eq!(plain.len(), 1);
}

#[test]
fn few_clusters_are_merged_the_same_way() {
    for seed in 0..4 {
        let aig = random_graph(40, 400, seed);
        let nodes: Vec<usize> = (0..12).map(|i| aig.num_aigpins - i * 17).collect();
        let staged = outputs(&nodes);
        for degrad in 0..2 {
            let parts: Vec<Vec<usize>> = (0..6).map(|i| vec![2 * i, 2 * i + 1]).collect();
            let one = process_partitions_conditional(&aig, &staged, parts.clone(), degrad).unwrap();
            let two =
                process_partitions_conditional_skip(&aig, &staged, parts.clone(), degrad).unwrap();
            let ends = |ps: &[Partition]| -> Vec<Vec<usize>> {
                ps.iter().map(|p| p.endpoints.clone()).collect()
            };
            assert_eq!(ends(&one), ends(&two));
            // the conditional variant is the plain one, perhaps with a stage more.
            let stages: Vec<usize> = parts
                .iter()
                .map(|ids| Partition::build_one(&aig, &staged, ids).unwrap().stages.len())
                .collect();
            let range = stages.iter().max().unwrap() - stages.iter().min().unwrap();
            let allowed = if range > 1 { degrad + 1 } else { degrad };
            let plain = process_partitions(&aig, &staged, parts, allowed).unwrap();
            assert_eq!(ends(&one), ends(&plain));
        }
    }
}

#[test]
fn two_clusters_are_merged_or_kept_in_order() {
    let mut drivers = vec![DriverType::Other];
    for i in 0..41 {
        drivers.push(DriverType::InputPort(i));
    }
    drivers.push(DriverType::AndGate(2, 4));
    let short = drivers.len() - 1;
    for i in 2..41 {
        let last = drivers.len() - 1;
        drivers.push(DriverType::AndGate(last * 2, (i + 1) * 2));
    }
    let long = drivers.len() - 1;
    let aig = graph(drivers);
    let staged = outputs(&[short, long]);
    let ps = process_partitions(&aig, &staged, vec![vec![0], vec![1]], 0).unwrap();
    assert_eq!(ps.len(), 1);
    assert_eq!(ps[0].endpoints, vec![0, 1]);
    // more memories than a partition has room for stay apart, the deeper first.
    let group = |node| EndpointGroup { kind: EndpointKind::RAMBlock(0), inputs: vec![node] };
    let mut endpoints: Vec<EndpointGroup> = (0..33).map(|_| group(short)).collect();
    endpoints.extend((0..33).map(|_| group(long)));
    let staged = StagedAIG { primary_inputs: None, endpoints };
    let parts: Vec<Vec<usize>> = vec![(0..33).collect(), (33..66).collect()];
    let ps = process_partitions(&aig, &staged, parts, 0).unwrap();
    assert_eq!(ps.len(), 2);
    assert_eq!(ps[0].endpoints[0], 33);
    assert_eq!(ps[1].endpoints[0], 0);
}

#[test]
fn empty_parts_vanish() {
    let aig = random_graph(5, 20, 1);
    let staged = outputs(&[aig.num_aigpins, aig.num_aigpins - 1]);
    let ps = process_partitions(&aig, &staged, vec![vec![], vec![1], vec![], vec![0]], 0).unwrap();
    assert_eq!(ps.len(), 1);
    assert_eq!(ps[0].endpoints, vec![1, 0]);
}

#[test]
fn parts_that_cannot_be_mapped_are_refused() {
    let aig = graph(vec![DriverType::Other, DriverType::InputPort(0)]);
    let staged = memories(65);
    let all: Vec<usize> = (0..65).collect();
    assert!(process_partitions(&aig, &staged, vec![all.clone()], 0).is_none());
    assert!(process_partitions_conditional(&aig, &staged, vec![all.clone()], 0).is_none());
    assert!(process_partitions_conditional_skip(&aig, &staged, vec![all], 0).is_none());
    let halves: Vec<Vec<usize>> = vec![(0..33).collect(), (33..65).collect()];
    // merged, they would be too many.
    assert_eq!(process_partitions(&aig, &staged, halves, 0).unwrap().len(), 2);
}

#[test]
fn part_files_are_read() {
    let lines: Vec<String> = ["1", "0", "", "+1"].iter().map(|s| s.to_string()).collect();
    assert_eq!(parts_from_lines(&lines), Some(vec![vec![1], vec![0, 3]]));
    assert_eq!(parts_from_lines(&vec!["x".to_string()]), None);
    assert_eq!(parts_from_lines(&vec![]), Some(vec![]));
    for s in ["0", "17", "+5", "", "+", "-1", " 1", "18446744073709551615", "18446744073709551616"] {
        assert_eq!(parse_index(s), s.parse::<usize>().ok());
    }
    let aig = random_graph(5, 20, 1);
    let staged = outputs(&[aig.num_aigpins, aig.num_aigpins - 1]);
    let lines: Vec<String> = ["0", "1"].iter().map(|s| s.to_string()).collect();
    let from_file = process_partitions_from_hgr_parts_file(&aig, &staged, &lines, 0).unwrap();
    let direct = process_partitions(&aig, &staged, vec![vec![0], vec![1]], 0).unwrap();
    assert_eq!(from_file.len(), direct.len());
    assert_eq!(all_endpoints(&from_file), vec![0, 1]);
}

/// `n` disjoint trees of two levels.
fn trees(n: usize) -> (AIG, Vec<usize>) {
    let mut drivers = vec![DriverType::Other];
    let mut roots = Vec::new();
    for t in 0..n {
        let base = drivers.len();
        for i in 0..4 {
            drivers.push(DriverType::InputPort(t * 4 + i));
        }
        drivers.push(DriverType::AndGate(base * 2, base * 2 + 2));
        drivers.push(DriverType::AndGate(base * 2 + 4, base * 2 + 7));
        drivers.push(DriverType::AndGate(base * 2 + 8, base * 2 + 10));
        roots.push(base + 6);
    }
    (graph(drivers), roots)
}

#[test]
fn a_full_stage_hands_on_to_the_next() {
    let (aig, roots) = trees(1500);
    let staged = outputs(&roots);
    let ids: Vec<usize> = (0..roots.len()).collect();
    let p = Partition::build_one(&aig, &staged, &ids).unwrap();
    assert_eq!(p.stages.len(), 2);
    check_partition(&aig, &staged, &p);
}

#[test]
fn more_nodes_than_a_row_holds_cannot_be_mapped() {
    let (aig, roots) = trees(3000);
    let staged = outputs(&roots);
    let ids: Vec<usize> = (0..roots.len()).collect();
    assert!(Partition::build_one(&aig, &staged, &ids).is_none());
}

#[test]
fn gates_that_no_endpoint_needs_do_not_matter() {
    let aig = graph(vec![
        DriverType::Other,
        DriverType::InputPort(0),
        DriverType::InputPort(1),
        DriverType::AndGate(2, 4),
        // a gate over a constant and a gate, which no endpoint depends on.
        DriverType::AndGate(6, 1),
        DriverType::AndGate(3, 1),
    ]);
    let staged = outputs(&[3, 5]);
    let p = Partition::build_one(&aig, &staged, &vec![0, 1]).unwrap();
    check_partition(&aig, &staged, &p);
    let sub = staged.to_endpoint_subset(&vec![1]);
    let q = Partition::build_one(&aig, &sub, &vec![0]).unwrap();
    check_partition(&aig, &sub, &q);
}
