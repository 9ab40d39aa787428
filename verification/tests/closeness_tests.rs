use graph_sampling::closeness::{
    get_all_in_closeness, get_all_out_closeness, in_closeness, out_closeness, rank, Ratio,
};
use graph_sampling::graph::{is_well_formed, reverse_al};

fn value(score: &Ratio) -> f64 {
    score.numerator as f64 / score.denominator as f64
}

#[test]
fn test_reverse_al() {
    let adj_list = vec![vec![1], vec![2], vec![3], vec![]]; //graph is 0 -> 1 -> 2 -> 3

    let expected_reverse = vec![vec![], vec![0], vec![1], vec![2]];

    let reversed = reverse_al(&adj_list);

    assert_eq!(reversed, expected_reverse);
}

#[test]
fn test_out_closeness() {
    let adj_list = vec![vec![1, 2], vec![2], vec![3], vec![]]; //graph is 0 -> 1 -> 2 -> 3 and 0 ->2

    let closeness = value(&out_closeness(&adj_list, 0));

    let expected_closeness = 0.75; //hand-calculated closeness should be .75 (3/(1+1+2))

    assert!((closeness - expected_closeness) < 1e-6); //built in tolerance for floating point math
}

#[test]
fn out_closeness_is_three_over_four() {
    let adj_list = vec![vec![1, 2], vec![2], vec![3], vec![]];
    let score = out_closeness(&adj_list, 0);
    assert_eq!(score, Ratio { numerator: 3, denominator: 4 });
    assert!((value(&score) - 0.75).abs() < 1e-12);
}

#[test]
fn out_closeness_of_a_sink_is_indeterminate() {
    let adj_list = vec![vec![1, 2], vec![2], vec![3], vec![]];
    let score = out_closeness(&adj_list, 3);
    assert_eq!(score, Ratio { numerator: 0, denominator: 0 });
    assert!(score.is_indeterminate());
    assert!(value(&score).is_nan());
}

#[test]
fn in_closeness_of_a_source_is_zero() {
    let adj_list = vec![vec![1, 2], vec![2], vec![3], vec![]];
    let score = in_closeness(&adj_list, 0);
    assert_eq!(score, Ratio { numerator: 0, denominator: 1 });
    assert!(!score.is_indeterminate());
    assert_eq!(value(&score), 0.0);
}

#[test]
fn in_closeness_follows_edges_backwards() {
    let adj_list = vec![vec![1, 2], vec![2], vec![3], vec![]];
    // Node 3 is reached from 2 in one hop, from 0 and 1 in two.
    assert_eq!(in_closeness(&adj_list, 3), Ratio { numerator: 3, denominator: 5 });
    // Node 2 is reached from 0 and 1 in one hop.
    assert_eq!(in_closeness(&adj_list, 2), Ratio { numerator: 2, denominator: 2 });
}

#[test]
fn reversal_keeps_parallel_edges_and_loops() {
    let adj_list = vec![vec![1, 1, 0], vec![0], vec![]];
    let reversed = reverse_al(&adj_list);
    assert_eq!(reversed, vec![vec![0, 1], vec![0, 0], vec![]]);
}

#[test]
fn reversal_of_empty_graph_is_empty() {
    let adj_list: Vec<Vec<usize>> = Vec::new();
    assert_eq!(reverse_al(&adj_list), Vec::<Vec<usize>>::new());
}

#[test]
fn ratio_order_puts_indeterminate_last() {
    let half = Ratio { numerator: 1, denominator: 2 };
    let third = Ratio { numerator: 1, denominator: 3 };
    let two_fourths = Ratio { numerator: 2, denominator: 4 };
    let none = Ratio { numerator: 0, denominator: 0 };
    assert!(half.at_least(&third));
    assert!(!third.at_least(&half));
    assert!(half.at_least(&two_fourths));
    assert!(two_fourths.at_least(&half));
    assert!(half.at_least(&none));
    assert!(!none.at_least(&half));
    assert!(none.at_least(&none));
}

#[test]
fn ratio_order_does_not_overflow() {
    let big = Ratio { numerator: usize::MAX, denominator: usize::MAX };
    let small = Ratio { numerator: usize::MAX - 1, denominator: usize::MAX };
    assert!(big.at_least(&small));
    assert!(!small.at_least(&big));
}

#[test]
fn rank_sorts_descending_and_keeps_entries() {
    let list = vec![
        (0, Ratio { numerator: 1, denominator: 3 }),
        (1, Ratio { numerator: 0, denominator: 0 }),
        (2, Ratio { numerator: 3, denominator: 4 }),
        (3, Ratio { numerator: 1, denominator: 2 }),
        (4, Ratio { numerator: 0, denominator: 1 }),
    ];
    let ranked = rank(list);
    let nodes: Vec<usize> = ranked.iter().map(|entry| entry.0).collect();
    assert_eq!(nodes, vec![2, 3, 0, 4, 1]);
    assert_eq!(ranked[0].1, Ratio { numerator: 3, denominator: 4 });
    for i in 0..ranked.len() - 1 {
        assert!(ranked[i].1.at_least(&ranked[i + 1].1));
    }
}

#[test]
fn rank_of_nothing_is_nothing() {
    assert_eq!(rank(Vec::new()), Vec::new());
}

#[test]
fn all_out_closeness_ranks_every_node_with_edges() {
    let adj_list = vec![vec![1, 2], vec![2], vec![3], vec![]];
    let ranked = get_all_out_closeness(&adj_list, 10);
    assert_eq!(ranked.len(), 3);
    let mut nodes: Vec<usize> = ranked.iter().map(|entry| entry.0).collect();
    nodes.sort();
    assert_eq!(nodes, vec![0, 1, 2]);
    for entry in &ranked {
        assert_eq!(entry.1, out_closeness(&adj_list, entry.0));
    }
    for i in 0..ranked.len() - 1 {
        assert!(ranked[i].1.at_least(&ranked[i + 1].1));
    }
    // Nodes 1 and 2 score 2/3 and 1/1, node 0 scores 3/4.
    assert_eq!(ranked[0], (2, Ratio { numerator: 1, denominator: 1 }));
    assert_eq!(ranked[1], (0, Ratio { numerator: 3, denominator: 4 }));
    assert_eq!(ranked[2], (1, Ratio { numerator: 2, denominator: 3 }));
}

#[test]
fn all_in_closeness_ranks_every_node_with_incoming_edges() {
    let adj_list = vec![vec![1, 2], vec![2], vec![3], vec![]];
    let ranked = get_all_in_closeness(&adj_list, 10);
    let mut nodes: Vec<usize> = ranked.iter().map(|entry| entry.0).collect();
    nodes.sort();
    assert_eq!(nodes, vec![1, 2, 3]);
    for entry in &ranked {
        assert_eq!(entry.1, in_closeness(&adj_list, entry.0));
    }
    for i in 0..ranked.len() - 1 {
        assert!(ranked[i].1.at_least(&ranked[i + 1].1));
    }
    assert_eq!(ranked[2], (3, Ratio { numerator: 3, denominator: 5 }));
}

#[test]
fn closeness_ranking_with_zero_samples_is_empty() {
    let adj_list = vec![vec![1, 2], vec![2], vec![3], vec![]];
    assert!(get_all_out_closeness(&adj_list, 0).is_empty());
    assert!(get_all_in_closeness(&adj_list, 0).is_empty());
}

#[test]
fn closeness_ranking_draws_no_more_than_asked() {
    let adj_list = vec![vec![1, 2], vec![2], vec![3], vec![0]];
    for _ in 0..20 {
        let ranked = get_all_out_closeness(&adj_list, 2);
        assert_eq!(ranked.len(), 2);
        assert_ne!(ranked[0].0, ranked[1].0);
    }
}

#[test]
fn well_formed_graphs_are_told_from_others() {
    assert!(is_well_formed(&vec![vec![1, 2], vec![2], vec![3], vec![]]));
    assert!(is_well_formed(&Vec::new()));
    assert!(is_well_formed(&vec![vec![0, 0]]));
    assert!(!is_well_formed(&vec![vec![1]]));
    assert!(!is_well_formed(&vec![vec![], vec![0, 2]]));
}
