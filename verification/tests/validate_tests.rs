use graph_bins::arbitrary_graph::ArbitraryGraph;
use graph_bins::full_graph::FullGraph;
use graph_bins::graph::Graph;
use graph_bins::hyper_cube_graph::HyperCubeGraph;
use graph_bins::ring_graph::RingGraph;
use graph_bins::torus_graph::TorusGraph;
use rand::SeedableRng;
use rand::rngs::StdRng;

#[test]
fn full_graph_test_valid() {
    let mut rng = StdRng::seed_from_u64(1);
    assert!(FullGraph { n: 2 }.validate(&mut rng));
    assert!(FullGraph { n: 3 }.validate(&mut rng));
    assert!(FullGraph { n: 10 }.validate(&mut rng));
}

#[test]
fn ring_graph_test_valid() {
    let mut rng = StdRng::seed_from_u64(2);
    assert!(RingGraph { n: 2 }.validate(&mut rng));
    assert!(RingGraph { n: 3 }.validate(&mut rng));
    assert!(RingGraph { n: 4 }.validate(&mut rng));
}

#[test]
fn torus_graph_test_valid() {
    let mut rng = StdRng::seed_from_u64(3);
    assert!(TorusGraph { x: 2, y: 1 }.validate(&mut rng));
    assert!(TorusGraph { x: 1, y: 3 }.validate(&mut rng));
    assert!(TorusGraph { x: 2, y: 5 }.validate(&mut rng));
    assert!(TorusGraph { x: 7, y: 2 }.validate(&mut rng));
    assert!(TorusGraph { x: 10, y: 10 }.validate(&mut rng));
}

#[test]
fn hyper_cube_graph_test_valid() {
    let mut rng = StdRng::seed_from_u64(4);
    assert!(HyperCubeGraph { d: 1 }.validate(&mut rng));
    assert!(HyperCubeGraph { d: 2 }.validate(&mut rng));
    assert!(HyperCubeGraph { d: 3 }.validate(&mut rng));
    assert!(HyperCubeGraph { d: 5 }.validate(&mut rng));
}

#[test]
fn arbitrary_graph_test_valid() {
    let mut rng = StdRng::seed_from_u64(5);
    for _ in 1..10 {
        let g = ArbitraryGraph::random(28, 3, 10_000, &mut rng).expect("retry budget exhausted");
        assert!(g.validate(&mut rng));
    }
}

#[test]
fn graph_sizes() {
    assert_eq!(FullGraph { n: 10 }.n(), 10);
    assert_eq!(FullGraph { n: 10 }.d(), 9);
    assert_eq!(FullGraph { n: 10 }.m(), 45);
    assert_eq!(RingGraph { n: 10 }.d(), 2);
    assert_eq!(RingGraph { n: 10 }.m(), 10);
    assert_eq!(RingGraph { n: 2 }.d(), 1);
    assert_eq!(RingGraph { n: 1 }.d(), 0);
    assert_eq!(TorusGraph { x: 3, y: 4 }.n(), 12);
    assert_eq!(TorusGraph { x: 3, y: 4 }.d(), 4);
    assert_eq!(HyperCubeGraph { d: 5 }.n(), 32);
    assert_eq!(HyperCubeGraph { d: 5 }.d(), 5);
}

#[test]
fn neighbour_lists_are_regular() {
    let mut rng = StdRng::seed_from_u64(6);
    let g = ArbitraryGraph::random(16, 4, 10_000, &mut rng).expect("retry budget exhausted");
    for v in g.iter_vertices() {
        let nb = g.iter_neighbours(v);
        assert_eq!(nb.len(), 4);
        let direct = g.neighbours(v);
        assert_eq!(direct.len(), 4);
        for (i, u) in nb.iter().enumerate() {
            assert_eq!(direct[i], *u);
            assert_ne!(g.as_idx(*u), g.as_idx(v));
            assert!(g.has_edge(v, *u));
            assert!(g.has_edge(*u, v));
        }
    }
}

#[test]
fn random_edges_are_edges() {
    let mut rng = StdRng::seed_from_u64(7);
    let g = TorusGraph { x: 4, y: 5 };
    for _ in 0..100 {
        let (u, v) = g.random_edge(&mut rng);
        assert!(g.has_edge(u, v));
        assert!(g.has_edge(v, u));
        assert_ne!(g.as_idx(u), g.as_idx(v));
    }
}
