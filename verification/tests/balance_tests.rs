use graph_bins::algorithm::LoadBalanceAlgorithm;
use graph_bins::algorithm::load_balance;
use graph_bins::algorithm::load_balanced;
use graph_bins::full_graph::FullGraph;
use graph_bins::full_graph::Vertex;
use graph_bins::graph::BinGraph;
use graph_bins::graph::Graph;
use graph_bins::greedy::Greedy;
use graph_bins::ring_graph::RingGraph;
use rand::SeedableRng;
use rand::rngs::StdRng;

fn loads<G: Graph>(bins: &BinGraph<G>) -> Vec<u32> {
    let mut r = Vec::new();
    for v in bins.graph().iter_vertices() {
        r.push(bins.load(v));
    }
    r
}

#[test]
fn empty_run_on_complete_graph() {
    // Complete graph on four vertices, no balls: every load is zero and
    // the gap is zero.
    let mut rng = StdRng::seed_from_u64(21);
    let bins = load_balanced::<FullGraph, Greedy>(FullGraph { n: 4 }, 0, &mut rng);
    for l in loads(&bins) {
        assert_eq!(l, 0);
    }
    assert_eq!(bins.gap(), 0);
    assert_eq!(bins.upper_gap(), 0);
}

#[test]
fn load_conservation() {
    // After throwing k balls the loads sum to exactly k.
    let mut rng = StdRng::seed_from_u64(22);
    let bins = load_balanced::<RingGraph, Greedy>(RingGraph { n: 7 }, 123, &mut rng);
    let ls = loads(&bins);
    assert_eq!(ls.iter().map(|l| *l as u64).sum::<u64>(), 123);
}

#[test]
fn load_balance_adds_to_existing_loads() {
    let mut rng = StdRng::seed_from_u64(23);
    let mut bins = BinGraph::new(RingGraph { n: 5 });
    bins.add_ball(graph_bins::ring_graph::RingVertex(0));
    bins.add_ball(graph_bins::ring_graph::RingVertex(0));
    load_balance::<RingGraph, Greedy>(&mut bins, 10, &mut rng);
    let ls = loads(&bins);
    assert_eq!(ls.iter().map(|l| *l as u64).sum::<u64>(), 12);
    assert!(ls[0] >= 2);
}

#[test]
fn greedy_picks_the_lesser_loaded_endpoint() {
    // Strictly unequal loads leave nothing to randomness.
    let mut rng = StdRng::seed_from_u64(24);
    let mut bins = BinGraph::new(FullGraph { n: 2 });
    bins.add_ball(Vertex(0));
    bins.add_ball(Vertex(0));
    bins.add_ball(Vertex(1));
    // Loads are now [2, 1].
    let mut policy = <Greedy as LoadBalanceAlgorithm<FullGraph>>::for_graph(&bins);
    for _ in 0..20 {
        assert!(!policy.choose_between(&bins, Vertex(0), Vertex(1), &mut rng));
        assert!(policy.choose_between(&bins, Vertex(1), Vertex(0), &mut rng));
    }
}

#[test]
fn gap_and_upper_gap_values() {
    let mut bins = BinGraph::new(FullGraph { n: 3 });
    bins.add_ball(Vertex(0));
    bins.add_ball(Vertex(0));
    bins.add_ball(Vertex(1));
    // Loads are [2, 1, 0]: gap = 2 - 0, upper gap = 2 - (3 / 3).
    assert_eq!(bins.gap(), 2);
    assert_eq!(bins.upper_gap(), 1);
}

#[test]
fn upper_gap_truncates_the_mean() {
    let mut bins = BinGraph::new(FullGraph { n: 2 });
    bins.add_ball(Vertex(0));
    bins.add_ball(Vertex(0));
    bins.add_ball(Vertex(0));
    // Loads are [3, 0]: the mean 3 / 2 rounds down to 1.
    assert_eq!(bins.gap(), 3);
    assert_eq!(bins.upper_gap(), 2);
}

#[test]
fn ring_run_is_reproducible() {
    // A fixed seed fully determines the final load vector.
    let mut rng1 = StdRng::seed_from_u64(4242);
    let bins1 = load_balanced::<RingGraph, Greedy>(RingGraph { n: 10 }, 1000, &mut rng1);
    let mut rng2 = StdRng::seed_from_u64(4242);
    let bins2 = load_balanced::<RingGraph, Greedy>(RingGraph { n: 10 }, 1000, &mut rng2);
    let ls1 = loads(&bins1);
    let ls2 = loads(&bins2);
    assert_eq!(ls1, ls2);
    assert_eq!(ls1.iter().map(|l| *l as u64).sum::<u64>(), 1000);
    assert_eq!(bins1.gap(), bins2.gap());
    assert_eq!(bins1.upper_gap(), bins2.upper_gap());
}
