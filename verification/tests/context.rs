use domset::context::{Color, OperationKind, SolverContext};
use domset::graph::Graph;

fn cycle4() -> SolverContext {
    let edges = "4\n0 1\n1 2\n2 3\n3 0\n";
    let graph = Graph::new_from_edges(edges.to_string());
    SolverContext::new(graph)
}

/// Everything that can be observed of a state but its journal: the four sets
/// by membership and the three counters.
fn snapshot(context: &SolverContext) -> Vec<(bool, bool, bool, bool, u32, u32, u32)> {
    let n = context.graph.neighbors.len();
    (0..n)
        .map(|v| {
            (
                context.graph.is_valid(v),
                context.solution.contains(v),
                context.white.contains(v),
                context.excluded.contains(v),
                context.dom_amount[v],
                context.black_neighbors[v],
                context.white_neighbors[v],
            )
        })
        .collect()
}

#[test]
fn select() {
    let edges = "4\n0 1\n1 2\n2 3\n3 0\n";
    let graph = Graph::new_from_edges(edges.to_string());
    let mut context = SolverContext::new(graph);
    [0, 2].iter().for_each(|&v| {
        context.select(v);
        assert!(context.solution.contains(v));
        assert!(!context.graph.is_valid(v));
        for n in &context.graph.neighbors[v] {
            assert!(context.white.contains(*n));
        }
    });

    [1, 3].iter().for_each(|&v| {
        assert!(context.dom_amount[v] == 2);
    });
}

#[test]
fn undo_select() {
    let edges = "4\n0 1\n1 2\n2 3\n3 0\n";
    let graph = Graph::new_from_edges(edges.to_string());
    let mut context = SolverContext::new(graph);
    let v = 0;
    context.select(v);
    context.undo_select(v, Color::Black);
    assert!(context.solution.is_empty());
    assert!(context.white.is_empty());
    assert!(context.white_neighbors.iter().all(|&wn| wn == 0));
}

#[test]
fn new_context_is_blank() {
    let context = cycle4();
    assert!(context.history.is_empty());
    assert!(context.solution.is_empty());
    assert!(context.white.is_empty());
    assert_eq!(context.dom_amount, vec![0, 0, 0, 0]);
    assert_eq!(context.white_neighbors, vec![0, 0, 0, 0]);
    assert_eq!(context.black_neighbors, vec![2, 2, 2, 2]);
    for v in 0..4 {
        assert!(!context.excluded.contains(v));
        assert!(context.graph.is_valid(v));
    }
}

#[test]
fn select_counters_exact() {
    let mut context = cycle4();
    context.select(0);
    assert_eq!(context.dom_amount, vec![0, 1, 0, 1]);
    assert_eq!(context.black_neighbors, vec![2, 1, 2, 1]);
    // 1 and 3 turned white; 0 and 2 each have both as neighbours
    assert_eq!(context.white_neighbors, vec![2, 0, 2, 0]);
    assert!(context.white.contains(1) && context.white.contains(3));
    assert!(!context.white.contains(0) && !context.white.contains(2));
    assert_eq!(context.history.len(), 1);
    assert_eq!(context.history[0].v, 0);
    assert!(matches!(context.history[0].color, Color::Black));
    assert!(matches!(context.history[0].kind, OperationKind::Select));
}

#[test]
fn select_of_white_vertex_records_white() {
    let mut context = cycle4();
    context.select(0);
    context.select(1);
    assert!(matches!(context.history[1].color, Color::White));
    // 1 has left the white set though 0 still dominates it
    assert!(!context.white.contains(1));
    assert_eq!(context.dom_amount[1], 1);
    // 0 was chosen while black and is white now that 1 dominates it
    assert!(context.white.contains(0));
    assert_eq!(context.dom_amount, vec![1, 1, 1, 1]);
    assert_eq!(context.white_neighbors, vec![1, 2, 1, 2]);
    assert_eq!(context.black_neighbors, vec![2, 1, 2, 1]);
}

#[test]
fn color_helpers() {
    let mut context = cycle4();
    assert!(matches!(context.get_color(1), Color::Black));
    context.add_color(1, Color::White);
    assert!(matches!(context.get_color(1), Color::White));
    assert!(context.white.contains(1));
    context.add_color(2, Color::Black);
    assert!(!context.white.contains(2));
    assert!(matches!(context.remove_color(1), Color::White));
    assert!(!context.white.contains(1));
    assert!(matches!(context.remove_color(1), Color::Black));
}

#[test]
fn exclude_black_joins_excluded_and_stays_active() {
    let mut context = cycle4();
    let before = snapshot(&context);
    context.exclude(1);
    assert!(context.excluded.contains(1));
    assert!(context.graph.is_valid(1));
    assert!(matches!(context.history[0].kind, OperationKind::Exclude));
    assert!(matches!(context.history[0].color, Color::Black));
    assert!(!context.is_free(1));
    context.undo_exclude(1, Color::Black);
    assert_eq!(snapshot(&context), before);
}

#[test]
fn exclude_white_leaves_active_and_white() {
    let mut context = cycle4();
    context.select(0);
    let before = snapshot(&context);
    context.exclude(1);
    assert!(!context.excluded.contains(1));
    assert!(!context.graph.is_valid(1));
    assert!(!context.white.contains(1));
    assert!(matches!(context.history[1].color, Color::White));
    // 0 and 2 no longer count 1 among their white neighbours
    assert_eq!(context.white_neighbors, vec![1, 0, 1, 0]);
    assert_eq!(context.dom_amount, vec![0, 1, 0, 1]);
    context.undo_exclude(1, Color::White);
    assert_eq!(snapshot(&context), before);
}

#[test]
fn rollback_restores_every_field() {
    let mut context = cycle4();
    context.exclude(3);
    let mark = context.history.len();
    let before = snapshot(&context);
    context.select(0);
    context.exclude(1);
    context.select(2);
    context.exclude(3);
    assert_eq!(context.history.len(), mark + 4);
    context.rollback(mark);
    assert_eq!(context.history.len(), mark);
    assert_eq!(snapshot(&context), before);
    context.rollback(0);
    assert!(context.history.is_empty());
    assert!(!context.excluded.contains(3));
}

#[test]
fn rollback_to_current_length_changes_nothing() {
    let mut context = cycle4();
    context.select(0);
    let before = snapshot(&context);
    context.rollback(1);
    assert_eq!(context.history.len(), 1);
    assert_eq!(snapshot(&context), before);
}

#[test]
fn white_iff_dominated_on_active_vertices() {
    let mut context = cycle4();
    context.select(0);
    context.exclude(2);
    for v in 0..4 {
        if context.graph.is_valid(v) {
            assert_eq!(context.white.contains(v), context.dom_amount[v] > 0);
        }
        if context.white.contains(v) {
            assert!(context.dom_amount[v] > 0);
        }
    }
}

#[test]
fn dom_amount_counts_chosen_neighbours() {
    let edges = "5\na b\na c\na d\nb c\nd e\n";
    let mut context = SolverContext::new(Graph::new_from_edges(edges.to_string()));
    context.select(1);
    context.select(3);
    for v in 0..5 {
        let chosen = context.graph.neighbors[v]
            .iter()
            .filter(|n| context.solution.contains(**n))
            .count();
        assert_eq!(context.dom_amount[v] as usize, chosen);
    }
    assert_eq!(context.dom_amount, vec![2, 0, 1, 0, 1]);
}

#[test]
fn is_dominated_checks_active_vertices() {
    let mut context = cycle4();
    assert!(!context.is_dominated());
    context.select(0);
    assert!(!context.is_dominated());
    context.select(2);
    assert!(context.is_dominated());
    context.rollback(1);
    assert!(!context.is_dominated());
}

#[test]
fn is_free_tells_chosen_and_barred_apart() {
    let mut context = cycle4();
    assert!(context.is_free(0));
    context.select(0);
    assert!(!context.is_free(0));
    assert!(context.is_free(1));
    context.exclude(1);
    assert!(!context.is_free(1));
    context.exclude(2);
    assert!(!context.is_free(2));
    assert!(context.is_free(3));
}

#[test]
fn parallel_edges_count_twice() {
    let edges = "2\na b\na b\n";
    let mut context = SolverContext::new(Graph::new_from_edges(edges.to_string()));
    assert_eq!(context.black_neighbors, vec![2, 2]);
    let before = snapshot(&context);
    context.select(0);
    assert_eq!(context.dom_amount, vec![0, 2]);
    assert_eq!(context.white_neighbors, vec![2, 0]);
    assert_eq!(context.black_neighbors, vec![2, 0]);
    context.rollback(0);
    assert_eq!(snapshot(&context), before);
}

#[test]
fn solution_keeps_order_of_choice() {
    let mut context = cycle4();
    context.select(2);
    context.exclude(1);
    context.select(0);
    assert_eq!(context.solution.iter(), vec![2, 0]);
    context.rollback(2);
    assert_eq!(context.solution.iter(), vec![2]);
    context.select(3);
    assert_eq!(context.solution.iter(), vec![2, 3]);
}

#[test]
fn excluding_a_barred_black_vertex_changes_only_the_journal() {
    let mut context = cycle4();
    context.exclude(1);
    let before = snapshot(&context);
    context.exclude(1);
    assert_eq!(snapshot(&context), before);
    assert_eq!(context.history.len(), 2);
    assert!(matches!(context.history[1].color, Color::Black));
}

#[test]
fn choosing_an_inactive_vertex_counts_it() {
    let mut context = cycle4();
    context.select(0);
    context.exclude(1);
    assert!(!context.graph.is_valid(1));
    context.select(1);
    assert!(context.solution.contains(1));
    assert!(matches!(context.history[2].color, Color::Black));
    assert_eq!(context.dom_amount, vec![1, 1, 1, 1]);
    assert_eq!(context.black_neighbors, vec![1, 1, 1, 1]);
}

#[test]
fn undo_select_of_white_vertex_restores_its_colour() {
    let mut context = cycle4();
    context.select(0);
    let before = snapshot(&context);
    context.select(1);
    context.undo_select(1, Color::White);
    assert_eq!(snapshot(&context), before);
    assert!(context.white.contains(1));
    assert_eq!(context.history.len(), 2);
}

#[test]
fn steps_on_many_graphs_roll_back_exactly() {
    let mut seed: u64 = 2024;
    let mut next = move || {
        seed = seed.wrapping_mul(6364136223846793005).wrapping_add(1442695040888963407);
        (seed >> 33) as usize
    };
    for _ in 0..200 {
        let n = 2 + next() % 9;
        let mut text = format!("{}\n", n);
        for _ in 0..(1 + next() % (3 * n)) {
            let a = next() % n;
            let b = (a + 1 + next() % (n - 1)) % n;
            text.push_str(&format!("v{} v{}\n", a, b));
        }
        let graph = Graph::new_from_edges(text);
        assert!(graph.is_ready());
        let count = graph.neighbors.len();
        let mut context = SolverContext::new(graph);
        let mut marks = vec![(0, snapshot(&context))];
        for _ in 0..(3 * count) {
            let v = next() % count;
            if next() % 3 == 0 && context.is_free(v) {
                context.exclude(v);
            } else if context.is_free(v) {
                context.select(v);
            } else {
                continue;
            }
            for x in 0..count {
                let list = &context.graph.neighbors[x];
                let chosen = list.iter().filter(|u| context.solution.contains(**u)).count();
                let white = list.iter().filter(|u| context.white.contains(**u)).count();
                assert_eq!(context.dom_amount[x] as usize, chosen);
                assert_eq!(context.white_neighbors[x] as usize, white);
                if context.graph.is_valid(x) {
                    assert_eq!(context.white.contains(x), chosen > 0);
                }
            }
            marks.push((context.history.len(), snapshot(&context)));
        }
        while let Some((mark, state)) = marks.pop() {
            context.rollback(mark);
            assert_eq!(context.history.len(), mark);
            assert_eq!(snapshot(&context), state);
        }
    }
}

#[test]
fn context_on_looped_graph_is_blank() {
    let graph = Graph::new_from_edges("3\na a\nb c\na b\n".to_string());
    let context = SolverContext::new(graph);
    assert!(context.history.is_empty());
    assert!(context.solution.is_empty());
    assert!(context.white.is_empty());
    assert_eq!(context.dom_amount, vec![0, 0, 0]);
    assert_eq!(context.white_neighbors, vec![0, 0, 0]);
    assert_eq!(context.black_neighbors, vec![3, 2, 1]);
    assert_eq!(context.graph.neighbors, vec![vec![0, 0, 1], vec![2, 0], vec![1]]);
    for v in 0..3 {
        assert!(!context.excluded.contains(v));
        assert!(context.graph.is_valid(v));
    }
}

#[test]
fn looped_vertex_is_choosable_once_dominated() {
    let graph = Graph::new_from_edges("3\na a\nb c\na b\n".to_string());
    let mut context = SolverContext::new(graph);
    assert!(context.is_free(0));
    assert!(!context.is_choosable(0));
    assert!(context.is_choosable(1));
    context.select(1);
    assert!(context.is_choosable(0));
    let before = snapshot(&context);
    context.select(0);
    assert!(matches!(context.history[1].color, Color::White));
    assert_eq!(context.dom_amount, vec![3, 1, 1]);
    context.rollback(1);
    assert_eq!(snapshot(&context), before);
    assert!(!context.is_choosable(1));
}

#[test]
fn choosing_a_black_looped_vertex_turns_it_white() {
    let graph = Graph::new_from_edges("2\na a\na b\n".to_string());
    let mut context = SolverContext::new(graph);
    context.select(0);
    assert!(context.solution.contains(0));
    assert!(context.white.contains(0));
    assert!(context.white.contains(1));
    assert_eq!(context.dom_amount, vec![2, 1]);
    assert_eq!(context.black_neighbors, vec![1, 0]);
    assert_eq!(context.white_neighbors, vec![3, 1]);
}

#[test]
fn steps_on_graphs_with_loops_roll_back_exactly() {
    let mut seed: u64 = 4711;
    let mut next = move || {
        seed = seed.wrapping_mul(6364136223846793005).wrapping_add(1442695040888963407);
        (seed >> 33) as usize
    };
    for _ in 0..200 {
        let n = 1 + next() % 8;
        let mut text = format!("{}\n", n);
        for _ in 0..(1 + next() % (3 * n)) {
            text.push_str(&format!("v{} v{}\n", next() % n, next() % n));
        }
        let graph = Graph::new_from_edges(text);
        assert!(graph.is_ready());
        let count = graph.neighbors.len();
        let mut context = SolverContext::new(graph);
        let mut marks = vec![(0, snapshot(&context))];
        for _ in 0..(3 * count) {
            let v = next() % count;
            if next() % 3 == 0 && context.is_free(v) {
                context.exclude(v);
            } else if context.is_choosable(v) {
                context.select(v);
            } else {
                continue;
            }
            for x in 0..count {
                let list = &context.graph.neighbors[x];
                let chosen = list.iter().filter(|u| context.solution.contains(**u)).count();
                let white = list.iter().filter(|u| context.white.contains(**u)).count();
                assert_eq!(context.dom_amount[x] as usize, chosen);
                assert_eq!(context.white_neighbors[x] as usize, white);
            }
            marks.push((context.history.len(), snapshot(&context)));
        }
        while let Some((mark, state)) = marks.pop() {
            context.rollback(mark);
            assert_eq!(snapshot(&context), state);
        }
    }
}
