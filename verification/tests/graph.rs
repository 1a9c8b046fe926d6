use domset::edge_list::{chars_of, parse_count, space, split_lines, split_words};
use domset::fastset::DenseFastSet;
use domset::graph::Graph;

fn chars(text: &str) -> Vec<char> {
    text.chars().collect()
}

fn rows(parts: &[&str]) -> Vec<Vec<char>> {
    parts.iter().map(|p| chars(p)).collect()
}

#[test]
fn cycle_is_read_in_order() {
    let graph = Graph::new_from_edges("4\n0 1\n1 2\n2 3\n3 0\n".to_string());
    assert_eq!(graph.neighbors, vec![vec![1, 3], vec![0, 2], vec![1, 3], vec![2, 0]]);
    assert_eq!(graph.valid.iter(), vec![0, 1, 2, 3]);
    assert_eq!(graph.names, rows(&["0", "1", "2", "3"]));
    assert_eq!(graph.size(), 4);
}

#[test]
fn labels_are_numbered_by_first_occurrence() {
    let graph = Graph::new_from_edges("3\nzeta alpha\nmid zeta\nalpha mid\n".to_string());
    assert_eq!(graph.names, rows(&["zeta", "alpha", "mid"]));
    assert_eq!(graph.neighbors, vec![vec![1, 2], vec![0, 2], vec![0, 1]]);
}

#[test]
fn duplicate_edges_are_kept() {
    let graph = Graph::new_from_edges("2\na b\nb a\na b\n".to_string());
    assert_eq!(graph.neighbors, vec![vec![1, 1, 1], vec![0, 0, 0]]);
}

#[test]
fn count_is_not_binding() {
    let graph = Graph::new_from_edges("1\na b\nc d\n".to_string());
    assert_eq!(graph.neighbors.len(), 4);
    let graph = Graph::new_from_edges("10\na b\n".to_string());
    assert_eq!(graph.neighbors.len(), 2);
    assert_eq!(graph.size(), 2);
}

#[test]
fn count_alone_gives_empty_graph() {
    let graph = Graph::new_from_edges("0".to_string());
    assert_eq!(graph.neighbors.len(), 0);
    assert_eq!(graph.size(), 0);
    assert!(graph.is_ready());
}

#[test]
fn white_space_between_labels_is_free() {
    let graph = Graph::parse_edges(" +2 \r\n  a\t\tb \r\nb   c\n").unwrap();
    assert_eq!(graph.names, rows(&["a", "b", "c"]));
    assert_eq!(graph.neighbors, vec![vec![1], vec![0, 2], vec![1]]);
}

#[test]
fn malformed_text_is_refused() {
    assert!(Graph::parse_edges("").is_none());
    assert!(Graph::parse_edges("\n0 1\n").is_none());
    assert!(Graph::parse_edges("four\n0 1\n").is_none());
    assert!(Graph::parse_edges("4 4\n0 1\n").is_none());
    assert!(Graph::parse_edges("-4\n0 1\n").is_none());
    assert!(Graph::parse_edges("4\n0 1 2\n").is_none());
    assert!(Graph::parse_edges("4\n0\n").is_none());
    assert!(Graph::parse_edges("4\n0 1\n\n").is_none());
    assert!(Graph::parse_edges("4\n\n0 1\n").is_none());
    assert!(Graph::parse_edges("340282366920938463463374607431768211456\n0 1\n").is_none());
    assert!(Graph::parse_edges("4\n0 1").is_some());
}

#[test]
fn lines_end_at_line_feeds() {
    assert_eq!(split_lines(&chars("")), rows(&[]));
    assert_eq!(split_lines(&chars("a")), rows(&["a"]));
    assert_eq!(split_lines(&chars("a\n")), rows(&["a"]));
    assert_eq!(split_lines(&chars("a\n\n")), rows(&["a", ""]));
    assert_eq!(split_lines(&chars("\na")), rows(&["", "a"]));
    assert_eq!(split_lines(&chars("a b\nc")), rows(&["a b", "c"]));
}

#[test]
fn words_are_runs_without_white_space() {
    assert_eq!(split_words(&chars("")), rows(&[]));
    assert_eq!(split_words(&chars("   ")), rows(&[]));
    assert_eq!(split_words(&chars("ab")), rows(&["ab"]));
    assert_eq!(split_words(&chars(" ab  c\td ")), rows(&["ab", "c", "d"]));
    assert_eq!(split_words(&chars("a\u{a0}b\u{3000}c")), rows(&["a", "b", "c"]));
}

#[test]
fn white_space_is_that_of_unicode() {
    for c in ['\t', '\n', '\u{b}', '\u{c}', '\r', ' ', '\u{85}', '\u{a0}', '\u{1680}', '\u{2000}',
        '\u{200a}', '\u{2028}', '\u{2029}', '\u{202f}', '\u{205f}', '\u{3000}']
    {
        assert!(space(c));
        assert!(c.is_whitespace());
    }
    for c in ['a', '0', '+', '\u{8}', '\u{e}', '\u{200b}', '\u{1681}', '\u{3001}'] {
        assert!(!space(c));
        assert!(!c.is_whitespace());
    }
}

#[test]
fn counts_are_decimal() {
    assert_eq!(parse_count(&chars("0")), Some(0));
    assert_eq!(parse_count(&chars("42")), Some(42));
    assert_eq!(parse_count(&chars("+42")), Some(42));
    assert_eq!(parse_count(&chars("007")), Some(7));
    assert_eq!(parse_count(&chars(&usize::MAX.to_string())), Some(usize::MAX));
    assert_eq!(parse_count(&chars("")), None);
    assert_eq!(parse_count(&chars("+")), None);
    assert_eq!(parse_count(&chars("4x")), None);
    assert_eq!(parse_count(&chars("++4")), None);
    assert_eq!(parse_count(&chars("4+")), None);
    assert_eq!(parse_count(&chars("18446744073709551616")), None);
    assert_eq!(parse_count(&chars("99999999999999999999")), None);
}

#[test]
fn chars_of_copies_the_text() {
    assert_eq!(chars_of("a\u{e9}\n"), vec!['a', '\u{e9}', '\n']);
    assert_eq!(chars_of(""), Vec::<char>::new());
}

#[test]
fn invalidate_and_revalidate_toggle() {
    let mut graph = Graph::new_from_edges("3\na b\nb c\n".to_string());
    assert!(graph.is_valid(1));
    graph.invalidate(1);
    assert!(!graph.is_valid(1));
    assert_eq!(graph.size(), 2);
    assert_eq!(graph.valid_neighbors(0), Vec::<usize>::new());
    assert_eq!(graph.neighbors(0), &vec![1]);
    graph.invalidate(1);
    assert_eq!(graph.size(), 2);
    graph.revalidate(1);
    assert!(graph.is_valid(1));
    assert_eq!(graph.size(), 3);
    graph.revalidate(1);
    assert_eq!(graph.size(), 3);
    assert_eq!(graph.valid_neighbors(1), vec![0, 2]);
}

#[test]
fn valid_neighbors_keeps_list_order() {
    let mut graph = Graph::new_from_edges("4\nc x\nc y\nc z\n".to_string());
    assert_eq!(graph.valid_neighbors(0), vec![1, 2, 3]);
    graph.invalidate(2);
    assert_eq!(graph.valid_neighbors(0), vec![1, 3]);
    assert_eq!(graph.neighbors(0), &vec![1, 2, 3]);
}

#[test]
fn add_edge_and_has_edge() {
    let mut graph = Graph::new_from_edges("3\na b\nb c\n".to_string());
    assert!(graph.has_edge(0, 1));
    assert!(graph.has_edge(1, 0));
    assert!(!graph.has_edge(0, 2));
    graph.add_edge(0, 2);
    assert!(graph.has_edge(0, 2));
    assert!(graph.has_edge(2, 0));
    assert_eq!(graph.neighbors, vec![vec![1, 2], vec![0, 2], vec![1, 0]]);
    assert!(!graph.has_edge(1, 1));
}

#[test]
fn ready_needs_all_active() {
    let mut graph = Graph::new_from_edges("2\na b\n".to_string());
    assert!(graph.is_ready());
    graph.invalidate(0);
    assert!(!graph.is_ready());
    graph.revalidate(0);
    assert!(graph.is_ready());
    graph.add_edge(1, 1);
    assert!(graph.is_ready());
    let looped = Graph::new_from_edges("1\na a\n".to_string());
    assert_eq!(looped.neighbors, vec![vec![0, 0]]);
    assert!(looped.is_ready());
}

#[test]
fn graph_can_be_built_from_parts() {
    let mut valid = DenseFastSet::new(1);
    valid.insert(0);
    let graph = Graph { valid, neighbors: vec![vec![]], names: vec![vec!['a']] };
    assert!(graph.is_ready());
    assert_eq!(graph.size(), 1);
}
