use domset::context::{OperationKind, SolverContext};
use domset::fastset::DenseFastSet;
use domset::graph::Graph;
use domset::solver::Solver;

fn solver_on(edges: &str) -> Solver {
    let graph = Graph::new_from_edges(edges.to_string());
    assert!(graph.is_ready());
    Solver::new(SolverContext::new(graph))
}

fn dominates(graph: &Graph, chosen: &[usize]) -> bool {
    (0..graph.neighbors.len())
        .all(|v| chosen.contains(&v) || graph.neighbors[v].iter().any(|n| chosen.contains(n)))
}

#[test]
fn new_solver_starts_from_all_vertices() {
    let solver = solver_on("4\n0 1\n1 2\n2 3\n3 0\n");
    assert_eq!(solver.best_solution, vec![0, 1, 2, 3]);
    assert_eq!(solver.num_nodes, 0);
    assert_eq!(solver.graph().neighbors.len(), 4);
    assert!(matches!(solver.pivot(), Some(0)));
}

#[test]
fn four_cycle_needs_two() {
    let mut solver = solver_on("4\n0 1\n1 2\n2 3\n3 0\n");
    solver.branch();
    assert_eq!(solver.best_solution.len(), 2);
    assert!(dominates(solver.graph(), &solver.best_solution));
    assert!(solver.num_nodes > 1);
}

#[test]
fn single_edge_needs_one() {
    let mut solver = solver_on("2\na b\n");
    solver.branch();
    assert_eq!(solver.best_solution.len(), 1);
    assert!(dominates(solver.graph(), &solver.best_solution));
}

#[test]
fn star_needs_its_centre() {
    for leaves in 2..6 {
        let mut edges = format!("{}\n", leaves + 1);
        for l in 0..leaves {
            edges.push_str(&format!("c l{}\n", l));
        }
        let mut solver = solver_on(&edges);
        solver.branch();
        assert_eq!(solver.best_solution, vec![0]);
    }
}

#[test]
fn isolated_vertex_keeps_first_solution() {
    let mut valid = DenseFastSet::new(1);
    valid.insert(0);
    let graph = Graph { valid, neighbors: vec![vec![]], names: vec![vec!['a']] };
    let mut solver = Solver::new(SolverContext::new(graph));
    solver.branch();
    assert_eq!(solver.best_solution, vec![0]);
    assert_eq!(solver.num_nodes, 1);
    assert!(solver.context.history.is_empty());
}

#[test]
fn dominated_start_returns_at_once() {
    let mut solver = solver_on("4\n0 1\n1 2\n2 3\n3 0\n");
    solver.context.select(0);
    solver.context.select(2);
    assert!(solver.context.is_dominated());
    assert!(solver.pivot().is_none());
    solver.branch();
    assert_eq!(solver.num_nodes, 1);
    assert_eq!(solver.context.history.len(), 2);
    assert_eq!(solver.best_solution, vec![0, 2]);
}

#[test]
fn branch_leaves_only_exclusions_behind() {
    let mut solver = solver_on("4\n0 1\n1 2\n2 3\n3 0\n");
    solver.branch();
    // the pivot is 0; its neighbours 1 and 3 were tried and then barred
    assert_eq!(solver.context.history.len(), 2);
    assert_eq!(solver.context.history[0].v, 1);
    assert_eq!(solver.context.history[1].v, 3);
    assert!(solver.context.history.iter().all(|op| matches!(op.kind, OperationKind::Exclude)));
    assert!(solver.context.solution.is_empty());
    assert!(solver.context.excluded.contains(1) && solver.context.excluded.contains(3));
    solver.context.rollback(0);
    assert_eq!(solver.context.dom_amount, vec![0, 0, 0, 0]);
    assert_eq!(solver.context.white_neighbors, vec![0, 0, 0, 0]);
    assert_eq!(solver.context.black_neighbors, vec![2, 2, 2, 2]);
    assert!(solver.context.white.is_empty());
    for v in 0..4 {
        assert!(solver.context.graph.is_valid(v));
        assert!(!solver.context.excluded.contains(v));
    }
}

#[test]
fn looped_vertex_that_is_never_chosen_does_no_harm() {
    let mut solver = solver_on("3\na a\nb c\na b\n");
    solver.branch();
    assert_eq!(solver.best_solution, vec![1]);
}

#[test]
fn black_looped_candidate_is_skipped() {
    let mut solver = solver_on("1\na a\n");
    assert!(matches!(solver.pivot(), Some(0)));
    solver.branch();
    assert_eq!(solver.best_solution, vec![0]);
    assert!(solver.context.history.is_empty());
    assert_eq!(solver.num_nodes, 1);
}

#[test]
fn search_is_not_always_smallest() {
    let mut solver = solver_on("9\np a\np b\na x\nb y\nx h\ny h\nh l1\nh l2\n");
    solver.branch();
    assert!(dominates(solver.graph(), &solver.best_solution));
    // p and h dominate every vertex, but p is the pivot and is not tried itself
    assert!(dominates(solver.graph(), &[0, 5]));
    assert_eq!(solver.best_solution.len(), 3);
}

#[test]
fn five_cycle_skips_barred_candidates() {
    let mut solver = solver_on("5\n0 1\n1 2\n2 3\n3 4\n4 0\n");
    solver.branch();
    assert_eq!(solver.best_solution.len(), 2);
    assert!(dominates(solver.graph(), &solver.best_solution));
}

#[test]
fn parallel_edges_do_not_stop_the_search() {
    let mut solver = solver_on("3\na b\na b\nb c\nc a\n");
    solver.branch();
    assert_eq!(solver.best_solution.len(), 1);
    assert!(dominates(solver.graph(), &solver.best_solution));
}

#[test]
fn path_of_six_needs_two() {
    let mut solver = solver_on("6\n0 1\n1 2\n2 3\n3 4\n4 5\n");
    solver.branch();
    assert_eq!(solver.best_solution.len(), 2);
    assert!(dominates(solver.graph(), &solver.best_solution));
}

#[test]
fn pivot_has_fewest_active_neighbours() {
    let solver = solver_on("4\nc x\nc y\nx y\ny z\n");
    // z has one neighbour, the others two or three
    assert!(matches!(solver.pivot(), Some(3)));
}

#[test]
fn search_on_many_graphs_finds_dominating_sets() {
    let mut seed: u64 = 7;
    let mut next = move || {
        seed = seed.wrapping_mul(6364136223846793005).wrapping_add(1442695040888963407);
        (seed >> 33) as usize
    };
    for _ in 0..300 {
        let n = 2 + next() % 8;
        let mut text = format!("{}\n", n);
        for _ in 0..(1 + next() % (2 * n)) {
            let a = next() % n;
            let b = (a + 1 + next() % (n - 1)) % n;
            text.push_str(&format!("{} {}\n", a, b));
        }
        let mut solver = solver_on(&text);
        let all = solver.best_solution.len();
        solver.branch();
        assert!(solver.best_solution.len() <= all);
        assert!(dominates(solver.graph(), &solver.best_solution));
        assert!(solver.context.solution.is_empty());
        assert!(solver.context.history.iter().all(|op| matches!(op.kind, OperationKind::Exclude)));
        solver.context.rollback(0);
        assert!(solver.context.white.is_empty());
        assert!(solver.context.dom_amount.iter().all(|d| *d == 0));
    }
}

#[test]
fn search_on_graphs_with_loops_finds_dominating_sets() {
    let mut seed: u64 = 99;
    let mut next = move || {
        seed = seed.wrapping_mul(6364136223846793005).wrapping_add(1442695040888963407);
        (seed >> 33) as usize
    };
    for _ in 0..300 {
        let n = 1 + next() % 7;
        let mut text = format!("{}\n", n);
        for _ in 0..(1 + next() % (2 * n)) {
            text.push_str(&format!("{} {}\n", next() % n, next() % n));
        }
        let mut solver = solver_on(&text);
        let all = solver.best_solution.len();
        solver.branch();
        assert!(solver.best_solution.len() <= all);
        assert!(dominates(solver.graph(), &solver.best_solution));
        solver.context.rollback(0);
        assert!(solver.context.white.is_empty());
        assert!(solver.context.dom_amount.iter().all(|d| *d == 0));
        assert_eq!(solver.context.graph.size(), all);
    }
}
