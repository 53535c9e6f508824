use gem::aig::{DriverType, AIG};
use gem::cut_map::{
    get_max_partition_depth, run_par, AdaptiveSearch, CutRound, Phase, StepResult,
};
use gem::hgr::parse_index;
use gem::pe::{BoomerangStage, Partition};
use gem::repcut::{PartitionTask, RCHyperGraph};
use gem::staging::{EndpointGroup, EndpointKind, StagedAIG};
use rand::{Rng, SeedableRng};
use rand_chacha::ChaCha20Rng;

fn graph(drivers: Vec<DriverType>) -> AIG {
    let n = drivers.len();
    let mut feeds = vec![Vec::new(); n];
    for (u, driver) in drivers.iter().enumerate() {
        if let DriverType::AndGate(a, b) = driver {
            for lit in [a, b].into_iter().filter(|lit| **lit >= 2) {
                feeds[lit >> 1].push(u);
            }
        }
    }
    let mut fanouts_start = vec![0];
    let mut fanouts = Vec::new();
    for list in feeds {
        fanouts.extend(list);
        fanouts_start.push(fanouts.len());
    }
    AIG { num_aigpins: n - 1, drivers, fanouts_start, fanouts }
}

fn outputs(nodes: &[usize]) -> StagedAIG {
    StagedAIG {
        primary_inputs: None,
        endpoints: nodes
            .iter()
            .map(|&n| EndpointGroup { kind: EndpointKind::PrimaryOutput(n * 2), inputs: vec![n] })
            .collect(),
    }
}

/// Ports 1, 2 and 3; gates 4 = 1 & 2, 5 = 4 & 3, 6 = 4 & 1, 7 = 2 & 3.
fn small() -> (AIG, StagedAIG) {
    let aig = graph(vec![
        DriverType::Other,
        DriverType::InputPort(0),
        DriverType::InputPort(1),
        DriverType::InputPort(2),
        DriverType::AndGate(2, 4),
        DriverType::AndGate(8, 6),
        DriverType::AndGate(8, 2),
        DriverType::AndGate(4, 6),
    ]);
    (aig, outputs(&[5, 6, 7]))
}

#[test]
fn edges_join_endpoints_that_share_nodes() {
    let (aig, staged) = small();
    let hg = RCHyperGraph::from_staged_aig(&aig, &staged, vec![5, 6, 7]);
    assert_eq!(hg.num_vertices(), 3);
    // nodes 1 and 4 lead to endpoints 0 and 1, node 2 to all, node 3 to 0 and 2.
    assert_eq!(
        hg.to_edges(),
        vec![(2, vec![0, 1]), (1, vec![0, 1, 2]), (1, vec![0, 2])]
    );
    assert_eq!(hg.to_text(), "3 3 11\n2 1 2\n1 1 2 3\n1 1 3\n5\n6\n7\n");
}

#[test]
fn the_text_of_a_number_is_read_back() {
    let (aig, staged) = small();
    let hg = RCHyperGraph::from_staged_aig(&aig, &staged, vec![0, 10, u64::MAX]);
    let text = hg.to_text();
    let weights: Vec<Option<usize>> = text.lines().skip(4).map(parse_index).collect();
    assert_eq!(weights, vec![Some(0), Some(10), Some(u64::MAX as usize)]);
}

#[test]
fn one_part_needs_no_solver() {
    let (aig, staged) = small();
    let hg = RCHyperGraph::from_staged_aig(&aig, &staged, vec![1, 1, 1]);
    assert!(matches!(hg.partition(1), PartitionTask::Solved(parts) if parts == vec![0, 0, 0]));
}

#[test]
fn the_solver_gets_the_edges() {
    let (aig, staged) = small();
    let hg = RCHyperGraph::from_staged_aig(&aig, &staged, vec![1, 2, 3]);
    match hg.partition(2) {
        PartitionTask::Solve(a) => {
            assert_eq!(a.k, 2);
            assert_eq!(a.num_vertices, 3);
            assert_eq!(a.hyperedge_indices, vec![0, 2, 5, 7]);
            assert_eq!(a.hyperedges, vec![0, 1, 0, 1, 2, 0, 2]);
            assert_eq!(a.hyperedge_weights, vec![2, 1, 1]);
            assert_eq!(a.vertex_weights, vec![1, 2, 3]);
        }
        PartitionTask::Solved(_) => panic!("two parts need a solver"),
    }
}

/// The same choices with one generator that is kept over all endpoints.
fn sample(members: &[usize], edge: usize) -> Vec<usize> {
    let mut rng = ChaCha20Rng::seed_from_u64(8026727 + edge as u64);
    let mut kept = Vec::<usize>::new();
    for (before, &m) in members.iter().enumerate() {
        if kept.len() < 1000 {
            kept.push(m);
        } else if rng.gen_range(0..before) < 1000 {
            let place: usize = rng.gen_range(0..1000);
            kept[place] = m;
        }
    }
    kept
}

#[test]
fn large_edges_are_sampled() {
    // node 3 feeds 5000 gates, node 2 the first 1001 of them.
    let mut drivers = vec![
        DriverType::Other,
        DriverType::InputPort(0),
        DriverType::InputPort(1),
        DriverType::InputPort(2),
    ];
    for i in 0..5000 {
        drivers.push(DriverType::AndGate(6, if i < 1001 { 4 } else { 2 }));
    }
    let aig = graph(drivers);
    let nodes: Vec<usize> = (4..5004).collect();
    let staged = outputs(&nodes);
    let hg = RCHyperGraph::from_staged_aig(&aig, &staged, vec![1; 5000]);
    let edges = hg.to_edges();
    assert_eq!(edges.len(), 3);
    let node1: Vec<usize> = (1001..5000).collect();
    let node2: Vec<usize> = (0..1001).collect();
    let node3: Vec<usize> = (0..5000).collect();
    assert_eq!(edges[0], (1, sample(&node1, 0)));
    assert_eq!(edges[1], (1, sample(&node2, 1)));
    assert_eq!(edges[2], (1, sample(&node3, 2)));
    assert!(edges.iter().all(|(_, ends)| ends.len() == 1000));
}

/// The endpoints that depend on each node.
fn dependents(aig: &AIG, staged: &StagedAIG) -> Vec<Vec<usize>> {
    let mut of = vec![Vec::new(); aig.drivers.len()];
    for (e, endpoint) in staged.endpoints.iter().enumerate() {
        for u in aig.topo_traverse_generic(&endpoint.inputs, None) {
            of[u].push(e);
        }
    }
    of
}

/// The hyperedges are the sets of endpoints that depend on nodes, each once,
/// with the numbers of the nodes.
fn check_edges(aig: &AIG, staged: &StagedAIG) -> Vec<(usize, Vec<usize>)> {
    let of = dependents(aig, staged);
    let shared: Vec<&Vec<usize>> =
        of[1..aig.num_aigpins].iter().filter(|ends| ends.len() >= 2).collect();
    let weights = vec![1; staged.endpoints.len()];
    let edges = RCHyperGraph::from_staged_aig(aig, staged, weights).to_edges();
    for (weight, ends) in &edges {
        assert!(*weight >= 1 && ends.len() >= 2 && ends.len() <= 1000);
        assert!(ends.iter().all(|&e| e < staged.endpoints.len()));
        assert_eq!(edges.iter().filter(|(_, other)| other == ends).count(), 1);
        assert_eq!(shared.iter().filter(|&&s| s == ends).count(), *weight);
    }
    assert_eq!(edges.iter().map(|(weight, _)| weight).sum::<usize>(), shared.len());
    edges
}

#[test]
fn edges_are_the_shared_logic() {
    let (aig, staged) = small();
    assert_eq!(check_edges(&aig, &staged).len(), 3);
    let mut x: usize = 7;
    let mut next = |bound: usize| {
        x = x.wrapping_mul(6364136223846793005).wrapping_add(1442695040888963407);
        (x >> 33) % bound
    };
    let mut drivers = vec![DriverType::Other];
    for i in 0..20 {
        drivers.push(DriverType::InputPort(i));
    }
    for _ in 0..300 {
        let n = drivers.len() - 1;
        let (a, b) = (1 + next(n), 1 + next(n));
        drivers.push(DriverType::AndGate(a * 2, b * 2 + next(2)));
    }
    let aig = graph(drivers);
    let nodes: Vec<usize> = (0..40).map(|i| 320 - 3 * i).collect();
    assert!(check_edges(&aig, &outputs(&nodes)).len() > 20);
}

#[test]
fn edges_reach_over_blocks_of_endpoints() {
    // gates 5 to 4204 read port 1; gate 5 and gate 4202 read port 2, too, and
    // gates 4101 and 4102 read port 3.
    let mut drivers = vec![
        DriverType::Other,
        DriverType::InputPort(0),
        DriverType::InputPort(1),
        DriverType::InputPort(2),
        DriverType::InputPort(3),
    ];
    for u in 5..4205 {
        drivers.push(match u {
            5 | 4202 => DriverType::AndGate(2, 4),
            4101 | 4102 => DriverType::AndGate(2, 6),
            _ => DriverType::AndGate(2, 8),
        });
    }
    let aig = graph(drivers);
    let nodes: Vec<usize> = (5..4205).collect();
    let hg = RCHyperGraph::from_staged_aig(&aig, &outputs(&nodes), vec![1; 4200]);
    let edges = hg.to_edges();
    assert_eq!(edges.len(), 4);
    assert_eq!(edges[1], (1, vec![0, 4197]));
    assert_eq!(edges[2], (1, vec![4096, 4097]));
    for (weight, ends) in &edges {
        let mut sorted = ends.clone();
        sorted.sort();
        sorted.dedup();
        assert_eq!(*weight, 1);
        assert_eq!(sorted.len(), ends.len());
        assert!(sorted[sorted.len() - 1] < 4200);
    }
}

#[test]
fn parts_list_their_members() {
    assert_eq!(run_par(&vec![1, 0, 1, 3], 4), vec![vec![1], vec![0, 2], vec![], vec![3]]);
    assert_eq!(run_par(&vec![], 2), vec![Vec::<usize>::new(), vec![]]);
}

#[test]
fn a_round_maps_all_endpoints() {
    let (aig, staged) = small();
    let mut round = CutRound::start(&aig, &staged, 40000);
    // seven nodes make one part.
    assert_eq!(round.division, 3);
    assert_eq!(round.num_parts(), Some(3));
    assert!(matches!(round.step(&aig, &staged, &vec![2, 0, 0], 3), StepResult::Advanced));
    assert_eq!(round.num_parts(), None);
    assert_eq!(round.good, vec![vec![1, 2], vec![], vec![0]]);
    let ps = round.build_good(&aig, &staged);
    assert_eq!(ps.len(), 3);
    assert_eq!(get_max_partition_depth(&ps), 1);
    assert_eq!(get_max_partition_depth(&vec![]), 0);
}

#[test]
fn parts_that_do_not_fit_are_cut_again() {
    let aig = graph(vec![DriverType::Other, DriverType::InputPort(0)]);
    let staged = StagedAIG {
        primary_inputs: None,
        endpoints: (0..70)
            .map(|_| EndpointGroup { kind: EndpointKind::RAMBlock(0), inputs: vec![1] })
            .collect(),
    };
    let mut round = CutRound::start(&aig, &staged, 40000);
    assert_eq!(round.division, 70);
    assert_eq!(round.num_parts(), Some(2));
    let ids: Vec<usize> = (0..70).map(|i| if i < 67 { 1 } else { 0 }).collect();
    assert!(matches!(round.step(&aig, &staged, &ids, 2), StepResult::Advanced));
    assert_eq!(round.good, vec![vec![67, 68, 69]]);
    assert_eq!(round.unrealized, (0..67).collect::<Vec<_>>());
    assert_eq!(round.division, 35);
    assert_eq!(round.num_parts(), Some(4));
}

#[test]
fn a_single_endpoint_that_does_not_fit_stops_a_round() {
    // one endpoint that reads more ports than the write-outs can hold.
    let mut drivers = vec![DriverType::Other];
    for i in 0..9000 {
        drivers.push(DriverType::InputPort(i));
    }
    let aig = graph(drivers);
    let staged = StagedAIG {
        primary_inputs: None,
        endpoints: vec![EndpointGroup {
            kind: EndpointKind::RAMBlock(0),
            inputs: (1..9001).collect(),
        }],
    };
    let mut round = CutRound::start(&aig, &staged, 1000);
    assert_eq!(round.num_parts(), Some(1));
    assert!(matches!(round.step(&aig, &staged, &vec![0], 1), StepResult::Stuck(0)));
    assert_eq!(round.unrealized, vec![0]);
}

#[test]
fn search_halves_the_size_while_the_depth_falls() {
    let mut s = AdaptiveSearch::new();
    assert_eq!(s.request(), Some(40000));
    s.report(vec![vec![0, 1]], 5);
    assert_eq!(s.request(), Some(20000));
    s.report(vec![vec![0], vec![1]], 4);
    assert_eq!(s.request(), Some(10000));
    // no better: the size before it is tried once more.
    s.report(vec![vec![1], vec![0]], 4);
    assert_eq!(s.request(), Some(20000));
    assert_eq!(s.phase, Phase::Finishing);
    s.report(vec![vec![7]], 4);
    assert_eq!(s.request(), None);
    assert_eq!(s.best, vec![vec![0], vec![1]]);
}

#[test]
fn search_takes_a_better_last_try() {
    let mut s = AdaptiveSearch::new();
    s.report(vec![vec![0]], 5);
    s.report(vec![vec![1]], 5);
    assert_eq!(s.request(), Some(40000));
    s.report(vec![vec![2]], 3);
    assert_eq!(s.request(), None);
    assert_eq!(s.best, vec![vec![2]]);
}

#[test]
fn search_goes_back_from_too_many_parts() {
    let mut s = AdaptiveSearch::new();
    s.report(vec![vec![0]], 9);
    s.report(vec![vec![]; 2001], 8);
    assert_eq!(s.phase, Phase::Rerunning);
    assert_eq!(s.request(), Some(40000));
    s.report(vec![vec![3]], 10);
    assert_eq!(s.request(), None);
    assert_eq!(s.best, vec![vec![3]]);
}

#[test]
fn search_ends_at_small_sizes() {
    let mut s = AdaptiveSearch::new();
    let mut depth = 20;
    let mut sizes = Vec::new();
    while let Some(size) = s.request() {
        sizes.push(size);
        s.report(vec![vec![depth]], depth);
        depth -= 1;
    }
    assert_eq!(sizes, vec![40000, 20000, 10000, 5000, 2500, 1250, 1250]);
    assert_eq!(s.best, vec![vec![14]]);
}

#[test]
fn search_without_parts_is_over_at_once() {
    let mut s = AdaptiveSearch::new();
    s.report(vec![], 0);
    assert_eq!(s.request(), Some(20000));
    s.report(vec![], 0);
    assert_eq!(s.request(), None);
    assert!(s.best.is_empty());
}

#[test]
fn depth_counts_stages() {
    let stage = || BoomerangStage { hier: vec![], write_outs: vec![] };
    let ps = vec![
        Partition { endpoints: vec![0], stages: vec![stage()] },
        Partition { endpoints: vec![1], stages: vec![stage(), stage()] },
    ];
    assert_eq!(get_max_partition_depth(&ps), 2);
}
