use graph_sampling::histogram::{histogram_bars, sort_by_distance};
use graph_sampling::ingest::{
    build_graph, parse_line, parse_number, read_graph, split_tokens, LineOutcome, LoadError,
};

fn bytes(text: &str) -> Vec<u8> {
    text.as_bytes().to_vec()
}

fn lines(text: &[&str]) -> Vec<Vec<u8>> {
    text.iter().map(|line| bytes(line)).collect()
}

#[test]
fn parse_number_reads_decimal_digits() {
    assert_eq!(parse_number(&bytes("0")), Some(0));
    assert_eq!(parse_number(&bytes("42")), Some(42));
    assert_eq!(parse_number(&bytes("007")), Some(7));
    assert_eq!(parse_number(&bytes("+15")), Some(15));
    assert_eq!(parse_number(&bytes(&usize::MAX.to_string())), Some(usize::MAX));
}

#[test]
fn parse_number_agrees_with_std() {
    for text in ["", "+", "-", "-1", "1a", "a1", "+-1", "++1", "1+", "12 ", "18446744073709551616", "99999999999999999999999", "000000000000000000000000001", "3.5"] {
        assert_eq!(parse_number(&bytes(text)), text.parse::<usize>().ok());
    }
}

#[test]
fn split_tokens_cuts_at_white_space() {
    assert_eq!(split_tokens(&bytes("  12\t34 \r")), vec![bytes("12"), bytes("34")]);
    assert_eq!(split_tokens(&bytes("a")), vec![bytes("a")]);
    assert_eq!(split_tokens(&bytes(" \t ")), Vec::<Vec<u8>>::new());
    assert_eq!(split_tokens(&bytes("")), Vec::<Vec<u8>>::new());
    assert_eq!(split_tokens(&bytes("1 2 3")), vec![bytes("1"), bytes("2"), bytes("3")]);
}

#[test]
fn parse_line_tells_edges_from_the_rest() {
    assert_eq!(parse_line(&bytes("3 5")), LineOutcome::Edge(3, 5));
    assert_eq!(parse_line(&bytes("\t10   2 ")), LineOutcome::Edge(10, 2));
    assert_eq!(parse_line(&bytes("")), LineOutcome::Skipped);
    assert_eq!(parse_line(&bytes("7")), LineOutcome::Skipped);
    assert_eq!(parse_line(&bytes("1 2 3")), LineOutcome::Skipped);
    assert_eq!(parse_line(&bytes("1 x")), LineOutcome::Invalid);
    assert_eq!(parse_line(&bytes("# comment")), LineOutcome::Invalid);
    assert_eq!(parse_line(&bytes("1 2 x")), LineOutcome::Invalid);
    assert_eq!(parse_line(&bytes("-1 2")), LineOutcome::Invalid);
}

#[test]
fn build_graph_keeps_edge_order_and_repeats() {
    let built = build_graph(&vec![(0, 2), (3, 1), (0, 1), (0, 2), (2, 2)]);
    assert_eq!(built, Some(vec![vec![2, 1, 2], vec![], vec![2], vec![1]]));
}

#[test]
fn build_graph_without_edges_has_one_node() {
    assert_eq!(build_graph(&Vec::new()), Some(vec![Vec::<usize>::new()]));
}

#[test]
fn build_graph_refuses_the_largest_node_number() {
    assert_eq!(build_graph(&vec![(0, usize::MAX)]), None);
    assert_eq!(build_graph(&vec![(usize::MAX, 0)]), None);
}

#[test]
fn read_graph_builds_adjacency_lists() {
    let loaded = read_graph(&lines(&["0 1", "0 2", "", "1 2", "5", "2 3", "1 2 3"]));
    assert_eq!(loaded, Ok(vec![vec![1, 2], vec![2], vec![3], vec![]]));
}

#[test]
fn read_graph_sizes_by_largest_node() {
    let loaded = read_graph(&lines(&["1 4"]));
    assert_eq!(loaded, Ok(vec![vec![], vec![4], vec![], vec![], vec![]]));
    assert_eq!(read_graph(&Vec::new()), Ok(vec![Vec::<usize>::new()]));
}

#[test]
fn read_graph_rejects_a_bad_token() {
    assert_eq!(read_graph(&lines(&["0 1", "a b", "1 2"])), Err(LoadError::InvalidToken));
    assert_eq!(read_graph(&lines(&["0 1", "1 2 x"])), Err(LoadError::InvalidToken));
}

#[test]
fn read_graph_rejects_too_many_nodes() {
    let huge = format!("0 {}", usize::MAX);
    assert_eq!(read_graph(&lines(&[&huge])), Err(LoadError::TooManyNodes));
}

#[test]
fn sort_by_distance_orders_ascending() {
    let sorted = sort_by_distance(vec![(3, 1), (1, 4), (2, 2)]);
    assert_eq!(sorted, vec![(1, 4), (2, 2), (3, 1)]);
    assert_eq!(sort_by_distance(Vec::new()), Vec::new());
}

#[test]
fn histogram_bars_scale_to_the_largest_count() {
    let bars = histogram_bars(vec![(2, 2), (1, 4)], 80);
    assert_eq!(bars, vec![(1, 80), (2, 40)]);
}

#[test]
fn histogram_bars_round_down_and_drop_empty_bars() {
    let bars = histogram_bars(vec![(3, 1), (1, 1000), (2, 30), (4, 12)], 80);
    // 30 * 80 / 1000 = 2, 12 * 80 / 1000 = 0, 1 * 80 / 1000 = 0
    assert_eq!(bars, vec![(1, 80), (2, 2)]);
}

#[test]
fn histogram_bars_of_nothing_are_nothing() {
    assert_eq!(histogram_bars(Vec::new(), 80), Vec::new());
}

#[test]
fn histogram_bars_do_not_overflow() {
    let bars = histogram_bars(vec![(1, usize::MAX), (2, usize::MAX / 2)], usize::MAX);
    assert_eq!(bars, vec![(1, usize::MAX), (2, usize::MAX / 2)]);
}
