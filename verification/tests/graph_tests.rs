use metatron_qso::graph::{build_edges, build_nodes, MetatronGraph, NodeType};
use metatron_qso::METATRON_DIMENSION;

#[test]
fn graph_has_expected_size() {
    let graph = MetatronGraph::new();
    let stats = graph.statistics();
    assert_eq!(stats.num_nodes, METATRON_DIMENSION);
    assert_eq!(stats.num_edges, 78);
    assert!(stats.is_connected);
}

#[test]
fn statistics_of_the_complete_graph() {
    let graph = MetatronGraph::default();
    let stats = graph.statistics();
    assert_eq!(stats.min_degree, 12);
    assert_eq!(stats.max_degree, 12);
    assert_eq!(stats.diameter, 1);
    assert_eq!(stats.degree_sequence, vec![12; 13]);
    assert_eq!(graph.degree_sequence(), vec![12; 13]);
    assert!(graph.is_connected());
}

#[test]
fn nodes_carry_types_and_labels() {
    let nodes = build_nodes();
    assert_eq!(nodes.len(), 13);
    assert_eq!(nodes[0].node_type, NodeType::Center);
    assert_eq!(nodes[0].label, "v1 (C)");
    assert_eq!(nodes[1].node_type, NodeType::Hexagon);
    assert_eq!(nodes[1].label, "v2 (H1)");
    assert_eq!(nodes[6].label, "v7 (H6)");
    assert_eq!(nodes[7].node_type, NodeType::Cube);
    assert_eq!(nodes[7].label, "v8 (Q1)");
    assert_eq!(nodes[12].label, "v13 (Q6)");
    for (i, node) in nodes.iter().enumerate() {
        assert_eq!(node.index, i);
    }
    let graph = MetatronGraph::new();
    assert_eq!(graph.nodes().len(), 13);
    assert_eq!(graph.nodes()[4].label, "v5 (H4)");
    let copy = graph.nodes()[9].duplicate();
    assert_eq!(copy.index, 9);
    assert_eq!(copy.node_type, NodeType::Cube);
    assert_eq!(copy.label, "v10 (Q3)");
}

#[test]
fn edges_form_the_complete_graph() {
    let edges = build_edges();
    assert_eq!(edges.len(), 78);
    for i in 0..13 {
        for j in (i + 1)..13 {
            assert_eq!(edges.iter().filter(|&&e| e == (i, j)).count(), 1);
        }
    }
    assert!(edges.iter().all(|&(u, v)| u < v && v < 13));
    let graph = MetatronGraph::new();
    assert_eq!(graph.edges().to_vec(), edges);
}

#[test]
fn neighbours_of_each_node() {
    let graph = MetatronGraph::new();
    let mut n0 = graph.neighbours(0);
    n0.sort();
    assert_eq!(n0, (1..13).collect::<Vec<usize>>());
    let mut n7 = graph.neighbours(7);
    n7.sort();
    let expected: Vec<usize> = (0..13).filter(|&k| k != 7).collect();
    assert_eq!(n7, expected);
    assert!(graph.neighbours(13).is_empty());
}

#[test]
fn automorphism_enumeration() {
    let graph = MetatronGraph::new();
    let mut autos = graph.enumerate_automorphisms();
    // 1 * 6! * 6! permutations keep the centre, the hexagon and the cube
    assert_eq!(autos.len(), 518400);
    let identity: Vec<usize> = (0..13).collect();
    for perm in &autos {
        assert_eq!(perm.len(), 13);
        assert_eq!(perm[0], 0);
        assert!(perm[1..7].iter().all(|&v| (1..7).contains(&v)));
        assert!(perm[7..13].iter().all(|&v| (7..13).contains(&v)));
        let mut sorted = perm.clone();
        sorted.sort();
        assert_eq!(sorted, identity);
    }
    assert!(autos.contains(&identity));
    let mut swap = identity.clone();
    swap.swap(1, 2);
    swap.swap(8, 12);
    assert!(autos.contains(&swap));
    autos.sort();
    autos.dedup();
    assert_eq!(autos.len(), 518400);
}

#[test]
fn automorphism_by_number_starts_with_the_identity() {
    let graph = MetatronGraph::new();
    let identity: Vec<usize> = (0..13).collect();
    assert_eq!(graph.automorphism_at(0), Some(identity));
    let second: Vec<usize> = vec![0, 1, 2, 3, 4, 5, 6, 7, 8, 9, 10, 12, 11];
    assert_eq!(graph.automorphism_at(1), Some(second));
    let third: Vec<usize> = vec![0, 1, 2, 3, 4, 5, 6, 7, 8, 9, 11, 10, 12];
    assert_eq!(graph.automorphism_at(2), Some(third));
}

#[test]
fn automorphism_by_number_ends_at_the_group_order() {
    let graph = MetatronGraph::new();
    let order = graph.automorphism_group_order();
    let reversed: Vec<usize> = (0..13).rev().collect();
    assert_eq!(graph.automorphism_at(order - 1), Some(reversed));
    assert_eq!(graph.automorphism_at(order), None);
    assert_eq!(graph.automorphism_at(u64::MAX), None);
}

#[test]
fn automorphism_by_number_reaches_a_swap_across_classes() {
    let graph = MetatronGraph::new();
    // exchanging a hexagon node and a cube node is an automorphism of the
    // complete graph; its number in lexicographic order is
    // 6 * 11! + 10! + 9! + 8! + 7! + 6!
    let mut swap: Vec<usize> = (0..13).collect();
    swap.swap(1, 7);
    assert_eq!(graph.automorphism_at(243_538_560), Some(swap.clone()));
    assert!(!graph.enumerate_automorphisms().contains(&swap));
}

#[test]
fn automorphisms_by_number_are_distinct_permutations() {
    let graph = MetatronGraph::new();
    let identity: Vec<usize> = (0..13).collect();
    let mut seen: Vec<Vec<usize>> = Vec::new();
    let mut k: u64 = 2000;
    while k < 6_227_020_800 {
        let perm = graph.automorphism_at(k).unwrap();
        let mut sorted = perm.clone();
        sorted.sort();
        assert_eq!(sorted, identity);
        seen.push(perm);
        k += 6_227_020_800 / 997 + 1;
    }
    for k in 0..2000u64 {
        seen.push(graph.automorphism_at(k).unwrap());
    }
    let total = seen.len();
    seen.sort();
    seen.dedup();
    // the strided numbers start at 2000, so the two samples do not overlap
    assert_eq!(seen.len(), total);
}

#[test]
fn automorphism_group_order_is_thirteen_factorial() {
    let graph = MetatronGraph::new();
    assert_eq!(graph.automorphism_group_order(), 6_227_020_800);
    assert_eq!(graph.automorphism_group_order(), (1..=13u64).product::<u64>());
}

#[test]
fn symmetry_orbits() {
    let graph = MetatronGraph::new();
    let all: Vec<usize> = (0..13).collect();
    assert_eq!(graph.symmetry_orbit(0), all);
    assert_eq!(graph.symmetry_orbit(1), all);
    assert_eq!(graph.symmetry_orbit(7), all);
    assert_eq!(graph.symmetry_orbit(12), all);
}

#[test]
fn petgraph_export_keeps_nodes_and_edges() {
    let graph = MetatronGraph::new();
    let pg = graph.to_petgraph();
    assert_eq!(pg.node_count(), 13);
    assert_eq!(pg.edge_count(), 78);
    let weights: Vec<usize> = pg.node_weights().map(|w| w.index).collect();
    assert_eq!(weights, (0..13).collect::<Vec<usize>>());
    let first = pg.edge_indices().next().unwrap();
    let (a, b) = pg.edge_endpoints(first).unwrap();
    assert_eq!((a.index(), b.index()), graph.edges()[0]);
}

#[test]
fn adjacency_and_laplacian_matrices() {
    let graph = MetatronGraph::new();
    let a = graph.adjacency_matrix();
    assert_eq!(a.len(), 169);
    for i in 0..13 {
        for j in 0..13 {
            assert_eq!(a[13 * i + j], if i == j { 0 } else { 1 });
        }
    }
    let l = graph.laplacian_matrix();
    assert_eq!(l.len(), 169);
    for i in 0..13 {
        for j in 0..13 {
            assert_eq!(l[13 * i + j], if i == j { 12 } else { -1 });
        }
        assert_eq!(l[13 * i..13 * i + 13].iter().sum::<i64>(), 0);
    }
}

#[test]
fn degrees_add_up_to_twice_the_edges() {
    let graph = MetatronGraph::new();
    let total: usize = graph.degree_sequence().iter().sum();
    assert_eq!(total, 2 * graph.edges().len());
    assert_eq!(total, 156);
}

#[test]
fn every_node_lies_in_its_own_orbit() {
    let graph = MetatronGraph::new();
    for node in 0..13 {
        assert!(graph.symmetry_orbit(node).contains(&node));
    }
}
