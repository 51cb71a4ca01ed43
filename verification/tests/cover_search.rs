use clique_cover::clique::CliqueMaker;
use clique_cover::graph::Graph;
use clique_cover::sweep::FULL_REVERSE;

fn graph_with_edges(n: usize, edges: &[(usize, usize)]) -> Graph {
    let mut g = Graph::new(n);
    for &(u, v) in edges {
        g.add_edge(u, v);
    }
    g.conform_cliques_to_vertices();
    g
}

fn complete_graph(n: usize) -> Graph {
    let mut g = Graph::new(n);
    for u in 0..n {
        for v in (u + 1)..n {
            g.add_edge(u, v);
        }
    }
    g.conform_cliques_to_vertices();
    g
}

fn two_triangles() -> Graph {
    graph_with_edges(6, &[(0, 1), (0, 2), (1, 2), (3, 4), (3, 5), (4, 5)])
}

/// Every vertex sits in exactly one active clique of the working prefix.
fn assert_conservation(g: &Graph) {
    let n = g.num_vertices();
    let ct = g.active_count();
    for v in 0..n {
        let mut owners = 0;
        for i in 0..ct {
            if g.clique_contains(i, v) {
                owners += 1;
            }
        }
        assert_eq!(owners, 1, "vertex {} held by {} active cliques", v, owners);
    }
}

/// The stored frontier of every working clique matches a brute-force
/// recomputation from the adjacency, and members are pairwise adjacent.
fn assert_frontiers_exact(g: &Graph) {
    let n = g.num_vertices();
    let ct = g.active_count();
    for i in 0..ct {
        for v in 0..n {
            let mut all_adjacent = true;
            for u in 0..n {
                if g.clique_contains(i, u) && !g.adjacent(u, v) {
                    all_adjacent = false;
                }
            }
            let expected = !g.clique_contains(i, v) && all_adjacent;
            assert_eq!(g.clique_frontier_contains(i, v), expected);
            if g.clique_contains(i, v) {
                for u in 0..n {
                    if g.clique_contains(i, u) && u != v {
                        assert!(g.adjacent(u, v));
                    }
                }
            }
        }
    }
}

#[test]
fn clique_maker_hands_out_singletons() {
    let mut maker = CliqueMaker::new(4);
    let c0 = maker.make_clique();
    let c1 = maker.make_clique();
    assert_eq!(c0.member_count(), 1);
    assert!(c0.contains(0));
    assert!(!c0.contains(1));
    assert!(c0.active());
    assert!(c1.contains(1));
    let copy = maker.get_copy_of_clique(&c1);
    assert_eq!(copy.member_count(), 1);
    assert!(copy.contains(1));
    assert!(!copy.contains(0));
}

#[test]
fn adjacency_is_symmetric_and_irreflexive() {
    let mut g = Graph::new(3);
    g.add_edge(0, 1);
    g.conform_cliques_to_vertices();
    assert!(g.adjacent(0, 1));
    assert!(g.adjacent(1, 0));
    assert!(!g.adjacent(0, 2));
    assert!(!g.adjacent(2, 0));
    assert!(!g.adjacent(0, 0));
}

#[test]
fn empty_graph_never_merges() {
    let mut g = graph_with_edges(5, &[]);
    assert_eq!(g.active_count(), 5);
    for _ in 0..4 {
        g.vcc_greedy();
        assert_eq!(g.active_count(), 5);
    }
    for _ in 0..4 {
        g.vcc_iterated_greedy(FULL_REVERSE / 2);
        assert_eq!(g.active_count(), 5);
    }
    assert_conservation(&g);
}

#[test]
fn complete_graph_collapses_in_one_sweep() {
    let mut g = complete_graph(5);
    assert_eq!(g.active_count(), 5);
    g.vcc_greedy();
    assert_eq!(g.active_count(), 1);
    assert_eq!(g.clique_member_count(0), 5);
    for v in 0..5 {
        assert!(g.clique_contains(0, v));
    }
    assert_conservation(&g);
    assert_frontiers_exact(&g);
}

#[test]
fn two_triangles_converge_to_two_and_never_below() {
    let mut g = two_triangles();
    g.vcc_greedy();
    assert_eq!(g.active_count(), 2);
    for _ in 0..20 {
        g.vcc_iterated_greedy(FULL_REVERSE / 2);
        assert_eq!(g.active_count(), 2);
        assert_conservation(&g);
    }
    assert_frontiers_exact(&g);
}

#[test]
fn run_to_target_reports_success() {
    let mut g = two_triangles();
    let report = g.vcc_run_iterations_to_target(1_000, 2, 0);
    assert!(report.reached);
    assert!(report.iterations >= 1 && report.iterations <= 1_000);
    // too few iterations for the annealing counter to fill, so the
    // escalation threshold still stands at its starting value
    assert_eq!(report.iterations_per_annealing, 1_000_000);
    assert!(g.active_count() <= 2);
    assert_conservation(&g);
}

#[test]
fn run_to_unreachable_target_reports_failure() {
    let mut g = graph_with_edges(3, &[]);
    let report = g.vcc_run_iterations_to_target(50, 1, 0);
    assert!(!report.reached);
    assert_eq!(report.iterations, 50);
    assert_eq!(g.active_count(), 3);
}

#[test]
fn compatible_transfer_moves_the_whole_eligible_set() {
    // a path 0 - 1 - 2: vertex 1 is compatible with the singleton of 0
    let mut g = graph_with_edges(3, &[(0, 1), (1, 2)]);
    g.transfer_compatible_vertices(0, 1);
    assert_eq!(g.clique_member_count(0), 2);
    assert!(g.clique_contains(0, 0));
    assert!(g.clique_contains(0, 1));
    assert_eq!(g.clique_member_count(1), 0);
    assert!(!g.clique_is_active(1));
    // nothing is adjacent to both 0 and 1, so the grown frontier is empty
    for v in 0..3 {
        assert!(!g.clique_frontier_contains(0, v));
    }
    assert_conservation(&g);
    assert_frontiers_exact(&g);
}

#[test]
fn compatible_transfer_with_empty_intersection_is_a_noop() {
    let mut g = graph_with_edges(3, &[]);
    g.transfer_compatible_vertices(0, 1);
    assert_eq!(g.clique_member_count(0), 1);
    assert_eq!(g.clique_member_count(1), 1);
    assert!(g.clique_is_active(0));
    assert!(g.clique_is_active(1));
    assert!(g.clique_contains(0, 0));
    assert!(g.clique_contains(1, 1));
}

#[test]
fn single_vertex_transfer_respects_its_guards() {
    let mut g = complete_graph(3);
    // vertex 2 is not a member of cliques[1], so nothing may move
    g.transfer_vertex_into_clique(0, 1, 2);
    assert_eq!(g.clique_member_count(0), 1);
    assert_eq!(g.clique_member_count(1), 1);
    // vertex 1 is a member of cliques[1] and on cliques[0]'s frontier
    g.transfer_vertex_into_clique(0, 1, 1);
    assert_eq!(g.clique_member_count(0), 2);
    assert!(g.clique_contains(0, 1));
    assert_eq!(g.clique_member_count(1), 0);
    assert!(!g.clique_is_active(1));
    assert_conservation(&g);
}

#[test]
fn reset_restores_all_singletons() {
    let mut g = two_triangles();
    g.vcc_greedy();
    assert_eq!(g.active_count(), 2);
    g.conform_cliques_to_vertices();
    assert_eq!(g.active_count(), 6);
    for i in 0..6 {
        assert!(g.clique_is_active(i));
        assert_eq!(g.clique_member_count(i), 1);
        for v in 0..6 {
            assert_eq!(g.clique_contains(i, v), v == i);
            assert_eq!(g.clique_frontier_contains(i, v), g.adjacent(i, v));
        }
    }
    assert_conservation(&g);
}

#[test]
fn forced_split_seeds_a_new_clique() {
    let mut g = two_triangles();
    g.vcc_greedy();
    assert_eq!(g.active_count(), 2);
    assert!(g.clique_member_count(0) >= 2);
    let activated = g.activate_inactive_clique();
    assert!(activated);
    assert_eq!(g.active_count(), 3);
    assert!(g.clique_is_active(2));
    assert_eq!(g.clique_member_count(2), 0);
    // move one member of the first clique into the fresh one
    let mut seed = usize::MAX;
    for v in 0..6 {
        if g.clique_contains(0, v) {
            seed = v;
        }
    }
    let before = g.clique_member_count(0);
    g.transfer_vertex_into_clique(2, 0, seed);
    assert_eq!(g.clique_member_count(2), 1);
    assert!(g.clique_contains(2, seed));
    assert_eq!(g.clique_member_count(0), before - 1);
    assert!(!g.clique_contains(0, seed));
    assert_conservation(&g);
}

#[test]
fn activation_without_reserve_slots_is_refused() {
    let mut g = graph_with_edges(2, &[]);
    assert_eq!(g.active_count(), 2);
    let activated = g.activate_inactive_clique();
    assert!(!activated);
    assert_eq!(g.active_count(), 2);
}

#[test]
fn shuffle_keeps_the_cover() {
    let mut g = two_triangles();
    g.vcc_greedy();
    let ct = g.active_count();
    for _ in 0..5 {
        g.shuffle_active_cliques();
        assert_eq!(g.active_count(), ct);
        assert_conservation(&g);
    }
}

#[test]
fn reverse_reverses_the_active_prefix() {
    let mut g = graph_with_edges(4, &[]);
    g.reverse_active_cliques();
    for i in 0..4 {
        assert!(g.clique_contains(i, 3 - i));
        assert_eq!(g.clique_member_count(i), 1);
    }
    assert_conservation(&g);
}

#[test]
fn visitation_order_changes_the_outcome() {
    // on the path 0 - 1 - 2, the middle vertex joins whichever end plays
    // the target first, so sweeping in reversed order pairs it differently
    let mut forward = graph_with_edges(3, &[(0, 1), (1, 2)]);
    forward.vcc_greedy();
    assert_eq!(forward.active_count(), 2);
    assert!(forward.clique_contains(0, 0));
    assert!(forward.clique_contains(0, 1));

    let mut backward = graph_with_edges(3, &[(0, 1), (1, 2)]);
    backward.reverse_active_cliques();
    backward.vcc_greedy();
    assert_eq!(backward.active_count(), 2);
    for i in 0..2 {
        if backward.clique_contains(i, 1) {
            assert!(backward.clique_contains(i, 2));
            assert!(!backward.clique_contains(i, 0));
        }
    }
    assert_conservation(&backward);
}
