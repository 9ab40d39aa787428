use graph_sampling::average::{avg_distance, avg_distance_over};
use graph_sampling::bfs::bfs;
use graph_sampling::closeness::Ratio;
use graph_sampling::histogram::{avg_distance_histogram, avg_distance_histogram_over};
use graph_sampling::sampler::{nodes_with_edges, sample_nodes};
use graph_sampling::tally::tally;
use std::collections::HashMap;

#[test]
fn test_avg_distance_histogram() {
    // Define a simple graph 0 -> 1 -> 2 -> 3 and 0 -> 2
    let adj_list = vec![vec![1, 2], vec![2], vec![3], vec![]];

    // Use a smaller sample size for testing
    let sample_size = 3;

    // Calculate the histogram
    let histogram = avg_distance_histogram(&adj_list, sample_size);

    // The histogram must hold something
    assert!(!histogram.is_empty(), "Histogram should not be empty");

    let mut expected_histogram: HashMap<usize, usize> = HashMap::new();
    expected_histogram.insert(2, 2);
    expected_histogram.insert(1, 4); //fill new HashMap with human-counted distances

    assert_eq!(histogram, expected_histogram);
}

#[test]
fn bfs_start_is_at_distance_zero() {
    let adj_list = vec![vec![1, 2], vec![2], vec![3], vec![]];
    for start in 0..4 {
        assert_eq!(bfs(&adj_list, start)[start], Some(0));
    }
}

#[test]
fn bfs_gives_shortest_hop_counts() {
    let adj_list = vec![vec![1, 2], vec![2], vec![3], vec![]];
    assert_eq!(bfs(&adj_list, 0), vec![Some(0), Some(1), Some(1), Some(2)]);
    assert_eq!(bfs(&adj_list, 1), vec![None, Some(0), Some(1), Some(2)]);
    assert_eq!(bfs(&adj_list, 2), vec![None, None, Some(0), Some(1)]);
    assert_eq!(bfs(&adj_list, 3), vec![None, None, None, Some(0)]);
}

#[test]
fn bfs_handles_cycles_loops_and_parallel_edges() {
    let adj_list = vec![vec![0, 1, 1], vec![2], vec![0, 3], vec![], vec![0]];
    assert_eq!(bfs(&adj_list, 0), vec![Some(0), Some(1), Some(2), Some(3), None]);
    assert_eq!(bfs(&adj_list, 4), vec![Some(1), Some(2), Some(3), Some(4), Some(0)]);
}

#[test]
fn bfs_positive_distance_has_predecessor() {
    let adj_list = vec![vec![0, 1, 1], vec![2], vec![0, 3], vec![], vec![0]];
    let distance = bfs(&adj_list, 4);
    for v in 0..adj_list.len() {
        if let Some(d) = distance[v] {
            if d > 0 {
                let found = (0..adj_list.len())
                    .any(|u| adj_list[u].contains(&v) && distance[u] == Some(d - 1));
                assert!(found);
            }
        }
    }
}

#[test]
fn bfs_is_repeatable() {
    let adj_list = vec![vec![1, 2], vec![2], vec![3], vec![0]];
    let first = bfs(&adj_list, 1);
    let second = bfs(&adj_list, 1);
    assert_eq!(first, second);
    assert_eq!(first, vec![Some(3), Some(0), Some(1), Some(2)]);
}

#[test]
fn tally_counts_and_sums_positive_distances() {
    assert_eq!(tally(&vec![Some(0), Some(1), None, Some(1), Some(2)]), (3, 4));
    assert_eq!(tally(&vec![Some(0), None]), (0, 0));
    assert_eq!(tally(&Vec::new()), (0, 0));
}

#[test]
fn nodes_with_edges_lists_them_in_order() {
    let adj_list = vec![vec![], vec![2], vec![], vec![0, 1], vec![]];
    assert_eq!(nodes_with_edges(&adj_list), vec![1, 3]);
    assert_eq!(nodes_with_edges(&Vec::new()), Vec::<usize>::new());
}

#[test]
fn sampling_at_least_all_returns_the_eligible_set() {
    let adj_list = vec![vec![1, 2], vec![2], vec![3], vec![]];
    for k in [3usize, 4, 100, usize::MAX] {
        let mut picked = sample_nodes(&adj_list, k);
        picked.sort();
        assert_eq!(picked, vec![0, 1, 2]);
    }
}

#[test]
fn sampling_fewer_returns_distinct_eligible_nodes() {
    let adj_list = vec![vec![1], vec![], vec![3], vec![4], vec![0], vec![], vec![1]];
    for _ in 0..50 {
        let mut picked = sample_nodes(&adj_list, 3);
        assert_eq!(picked.len(), 3);
        picked.sort();
        picked.dedup();
        assert_eq!(picked.len(), 3);
        for node in picked {
            assert!(!adj_list[node].is_empty());
        }
    }
}

#[test]
fn sampling_does_vary() {
    let adj_list: Vec<Vec<usize>> = (0..64).map(|v| vec![(v + 1) % 64]).collect();
    let all: Vec<usize> = (0..64).collect();
    let mut differs = false;
    for _ in 0..20 {
        let picked = sample_nodes(&adj_list, 8);
        assert_eq!(picked.len(), 8);
        if picked[..] != all[..8] {
            differs = true;
        }
    }
    assert!(differs);
}

#[test]
fn sampling_nothing_returns_nothing() {
    let adj_list = vec![vec![1, 2], vec![2], vec![3], vec![]];
    assert!(sample_nodes(&adj_list, 0).is_empty());
    let no_edges: Vec<Vec<usize>> = vec![vec![], vec![], vec![]];
    assert!(sample_nodes(&no_edges, 5).is_empty());
}

#[test]
fn histogram_over_the_three_nodes_with_edges() {
    let adj_list = vec![vec![1, 2], vec![2], vec![3], vec![]];
    let histogram = avg_distance_histogram_over(&adj_list, &vec![0, 1, 2]);
    assert_eq!(histogram.len(), 2);
    assert_eq!(histogram.get(&1), Some(&4));
    assert_eq!(histogram.get(&2), Some(&2));
    assert_eq!(histogram.get(&0), None);
    assert_eq!(histogram.get(&3), None);
}

#[test]
fn histogram_of_one_search() {
    let adj_list = vec![vec![1, 2], vec![2], vec![3], vec![]];
    let histogram = avg_distance_histogram_over(&adj_list, &vec![0]);
    let mut expected: HashMap<usize, usize> = HashMap::new();
    expected.insert(1, 2);
    expected.insert(2, 1);
    assert_eq!(histogram, expected);
}

#[test]
fn average_over_the_three_nodes_with_edges() {
    let adj_list = vec![vec![1, 2], vec![2], vec![3], vec![]];
    let mean = avg_distance_over(&adj_list, &vec![0, 1, 2]);
    // Distances 1, 1, 2 from node 0; 1, 2 from node 1; 1 from node 2.
    assert_eq!(mean, Ratio { numerator: 8, denominator: 6 });
    assert_eq!(avg_distance(&adj_list, 3), Ratio { numerator: 8, denominator: 6 });
    let as_float = mean.numerator as f64 / mean.denominator as f64;
    assert!((as_float - 4.0 / 3.0).abs() < 1e-12);
}

#[test]
fn graph_without_edges_gives_indeterminate_mean_and_empty_histogram() {
    let adj_list: Vec<Vec<usize>> = vec![vec![], vec![], vec![]];
    let mean = avg_distance(&adj_list, 5);
    assert_eq!(mean, Ratio { numerator: 0, denominator: 0 });
    assert!(mean.is_indeterminate());
    assert!((mean.numerator as f64 / mean.denominator as f64).is_nan());
    assert!(avg_distance_histogram(&adj_list, 5).is_empty());
    let empty: Vec<Vec<usize>> = Vec::new();
    assert!(avg_distance(&empty, 5).is_indeterminate());
    assert!(avg_distance_histogram(&empty, 5).is_empty());
}

#[test]
fn zero_samples_give_indeterminate_mean_and_empty_histogram() {
    let adj_list = vec![vec![1, 2], vec![2], vec![3], vec![]];
    assert!(avg_distance(&adj_list, 0).is_indeterminate());
    assert!(avg_distance_histogram(&adj_list, 0).is_empty());
}
