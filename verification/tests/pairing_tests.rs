use graph_bins::arbitrary_graph::ArbitraryGraph;
use graph_bins::deg::Pairing;
use graph_bins::deg::deg;
use graph_bins::deg::rand_pairing;
use graph_bins::deg::rand_pairing_edges;
use rand::SeedableRng;
use rand::rngs::StdRng;

fn loop_fixture() -> Pairing {
    // Seven cells of two half-edge slots each; pair 0 is a self-loop in
    // cell 0, and pairs 1 and 2 are valid donors for it.
    rand_pairing_edges(
        2,
        vec![(0, 1), (2, 4), (6, 8), (3, 10), (5, 12), (7, 11), (9, 13)],
    )
}

#[test]
fn pairing_shape() {
    let p = loop_fixture();
    assert_eq!(p.n(), 7);
    assert_eq!(p.m(), 7);
    assert_eq!(p.get_pair(0), (0, 1));
    // The loop cell pair holds one pair; half-edges 0 and 1 are both in
    // cell 0.
    assert_eq!(p.card(0, 1), 1);
    // Cells 1 and 2 are connected once, by pair 1.
    assert_eq!(p.card(2, 4), 1);
    // Cells 0 and 1 are not connected.
    assert_eq!(p.card(0, 2), 0);
}

#[test]
fn loop_switch_candidates() {
    let p = loop_fixture();
    let cands = p.l_forward_possibilities(0);
    // Pairs 1 and 2 qualify as donors.
    assert!(cands.contains(&(1, 2)));
    // The loop itself never qualifies as a donor.
    assert!(!cands.iter().any(|c| c.0 == 0 || c.1 == 0));
    // Pairs 1 and 4 share cell 2, so their half-edges are not disjoint.
    assert!(!cands.contains(&(1, 4)));
}

#[test]
fn loop_switch_repairs() {
    // The loop-removal switch: afterwards the loop cell pair is empty,
    // the three target cell pairs hold exactly one pair each, and the
    // pair count is unchanged.
    let mut p = loop_fixture();
    p.l_switch(0, 1, 2);
    assert_eq!(p.m(), 7);
    // The loop cell pair (cell 0 with itself) is empty.
    assert_eq!(p.card(0, 1), 0);
    // Targets (p1, p2) = cells (1, 0), (p3, p4) = cells (0, 3) and
    // (p5, p6) = cells (4, 2) each hold exactly one pair.
    assert_eq!(p.card(2, 0), 1);
    assert_eq!(p.card(1, 6), 1);
    assert_eq!(p.card(8, 4), 1);
    // The donor cell pairs (1, 2) and (3, 4) are empty.
    assert_eq!(p.card(2, 4), 0);
    assert_eq!(p.card(6, 8), 0);
    // The untouched pairs keep their cell pairs.
    assert_eq!(p.card(3, 10), 1);
    assert_eq!(p.card(5, 12), 1);
    assert_eq!(p.card(7, 11), 1);
    assert_eq!(p.card(9, 13), 1);
}

#[test]
fn no_loops_removes_the_loop() {
    let mut p = loop_fixture();
    let mut rng = StdRng::seed_from_u64(11);
    assert!(p.no_loops(vec![0], &mut rng).is_some());
    // Whatever donors were drawn, the loop cell pair ends up empty and
    // the pair count is unchanged.
    assert_eq!(p.card(0, 1), 0);
    assert_eq!(p.m(), 7);
}

fn double_fixture() -> Pairing {
    // Six cells of two half-edge slots each; pairs 0 and 1 both connect
    // cells 0 and 1, and pairs 2 and 3 are valid donors for the repair.
    rand_pairing_edges(
        2,
        vec![(0, 2), (1, 3), (4, 8), (6, 10), (5, 11), (7, 9)],
    )
}

#[test]
fn double_switch_candidates() {
    let p = double_fixture();
    assert_eq!(p.card(0, 2), 2);
    let cands = p.d_forward_possibilities(0, 1);
    // Pairs 2 and 3 qualify as donors.
    assert!(cands.contains(&(2, 3)));
    // Neither parallel pair qualifies as a donor.
    assert!(!cands.iter().any(|c| c.0 <= 1 || c.1 <= 1));
}

#[test]
fn double_switch_repairs() {
    // The multi-edge-removal switch: afterwards the doubly-connected cell
    // pair and both donor cell pairs are empty, the four target cell
    // pairs hold exactly one pair each, and the pair count is unchanged.
    let mut p = double_fixture();
    p.d_switch(0, 1, 2, 3);
    assert_eq!(p.m(), 6);
    // The defective cell pair (cells 0 and 1) is empty.
    assert_eq!(p.card(0, 2), 0);
    // The four targets each hold exactly one pair.
    assert_eq!(p.card(4, 0), 1);
    assert_eq!(p.card(1, 6), 1);
    assert_eq!(p.card(8, 2), 1);
    assert_eq!(p.card(3, 10), 1);
    // The donor cell pairs are empty.
    assert_eq!(p.card(4, 8), 0);
    assert_eq!(p.card(6, 10), 0);
    // The untouched pairs keep their cell pairs.
    assert_eq!(p.card(5, 11), 1);
    assert_eq!(p.card(7, 9), 1);
}

#[test]
fn no_doubles_removes_the_double() {
    let mut p = double_fixture();
    let mut rng = StdRng::seed_from_u64(15);
    assert!(p.no_doubles(vec![(0, 1)], &mut rng).is_some());
    assert_eq!(p.card(0, 2), 0);
    assert_eq!(p.m(), 6);
}

#[test]
fn rand_pairing_covers_all_half_edges() {
    let mut rng = StdRng::seed_from_u64(12);
    let p = rand_pairing(6, 3, &mut rng);
    assert_eq!(p.n(), 6);
    assert_eq!(p.m(), 9);
    let mut seen = vec![false; 18];
    for i in 0..p.m() {
        let (a, b) = p.get_pair(i);
        assert!(!seen[a] && !seen[b]);
        seen[a] = true;
        seen[b] = true;
    }
    assert!(seen.iter().all(|s| *s));
}

#[test]
fn deg_produces_simple_pairings() {
    let mut rng = StdRng::seed_from_u64(13);
    let p = deg(10, 3, 10_000, &mut rng).expect("retry budget exhausted");
    assert_eq!(p.n(), 10);
    assert_eq!(p.m(), 15);
    let cps = p.cell_pairs();
    assert_eq!(cps.len(), 15);
    for (i, (c1, c2)) in cps.iter().enumerate() {
        // No loops.
        assert_ne!(c1, c2);
        // No multi-edges.
        for (c3, c4) in cps.iter().skip(i + 1) {
            assert!(!((c1 == c3 && c2 == c4) || (c1 == c4 && c2 == c3)));
        }
    }
}

#[test]
fn no_loops_fails_without_candidates() {
    // Two cells, both pairs are loops: a loop switch needs five
    // different cells, so repair must signal regeneration.
    let mut p = rand_pairing_edges(2, vec![(0, 1), (2, 3)]);
    let mut rng = StdRng::seed_from_u64(16);
    assert!(p.no_loops(vec![0, 1], &mut rng).is_none());
}

#[test]
fn no_doubles_fails_without_candidates() {
    // Two cells joined twice: a multi-edge switch needs six different
    // cells, so repair must signal regeneration.
    let mut p = rand_pairing_edges(2, vec![(0, 2), (1, 3)]);
    let mut rng = StdRng::seed_from_u64(17);
    assert!(p.no_doubles(vec![(0, 1)], &mut rng).is_none());
}

#[test]
fn deg_reports_exhausted_budget() {
    let mut rng = StdRng::seed_from_u64(14);
    assert!(deg(10, 3, 0, &mut rng).is_none());
    assert!(ArbitraryGraph::random(10, 3, 0, &mut rng).is_none());
}
