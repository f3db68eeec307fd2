use trust_components::components::components_and_sizes;
use trust_components::components::index_nodes;
use trust_components::components::node_count;
use trust_components::forest::ConnectedComponents;

fn sorted(mut v: Vec<usize>) -> Vec<usize> {
    v.sort();
    v
}

#[test]
fn chain_and_pair() {
    let edges = vec![(1, 2), (2, 3), (4, 5)];
    let (count, sizes) = components_and_sizes(&edges);
    assert_eq!(count, 2);
    assert_eq!(sorted(sizes.clone()), vec![2, 3]);
    assert_eq!(sizes, vec![3, 2]);
}

#[test]
fn duplicate_edge() {
    let edges = vec![(1, 2), (1, 2), (1, 2)];
    let (count, sizes) = components_and_sizes(&edges);
    assert_eq!(count, 1);
    assert_eq!(sizes, vec![2]);
}

#[test]
fn negative_identifier() {
    let edges = vec![(7, -3)];
    let (count, sizes) = components_and_sizes(&edges);
    assert_eq!(count, 1);
    assert_eq!(sizes, vec![2]);
}

#[test]
fn disjoint_stars() {
    let edges = vec![(0, 1), (0, 2), (0, 3), (10, 11), (10, 12)];
    let (count, sizes) = components_and_sizes(&edges);
    assert_eq!(count, 2);
    assert_eq!(sizes, vec![4, 3]);
}

#[test]
fn no_edges() {
    let edges: Vec<(i32, i32)> = Vec::new();
    let (count, sizes) = components_and_sizes(&edges);
    assert_eq!(count, 0);
    assert_eq!(sizes, Vec::<usize>::new());
    assert_eq!(node_count(&edges), 0);
}

#[test]
fn self_loop_is_one_node() {
    let edges = vec![(5, 5)];
    let (count, sizes) = components_and_sizes(&edges);
    assert_eq!(count, 1);
    assert_eq!(sizes, vec![1]);
    assert_eq!(node_count(&edges), 1);
}

#[test]
fn order_does_not_change_result() {
    let edges = vec![(1, 2), (3, 4), (2, 3), (8, 9), (10, 8), (20, 21)];
    let mut reversed = edges.clone();
    reversed.reverse();
    let (c1, s1) = components_and_sizes(&edges);
    let (c2, s2) = components_and_sizes(&reversed);
    assert_eq!(c1, 3);
    assert_eq!(c1, c2);
    assert_eq!(sorted(s1), sorted(s2));
}

#[test]
fn bridging_edge_joins_components() {
    let edges = vec![(1, 2), (3, 4), (5, 6), (2, 3)];
    let (count, sizes) = components_and_sizes(&edges);
    assert_eq!(count, 2);
    assert_eq!(sizes, vec![4, 2]);
}

#[test]
fn sizes_sum_to_node_count() {
    let edges = vec![(1, 2), (2, 3), (4, 5), (-6, 7), (7, 8), (100, -100)];
    let (count, sizes) = components_and_sizes(&edges);
    assert_eq!(count, sizes.len());
    assert_eq!(sizes.iter().sum::<usize>(), node_count(&edges));
    assert_eq!(node_count(&edges), 10);
    assert!(sizes.iter().all(|&s| s >= 1));
}

#[test]
fn isolated_identifier_not_indexed() {
    let edges = vec![(1, 2), (2, 3)];
    let (map, n) = index_nodes(&edges);
    assert_eq!(n, 3);
    assert_eq!(map.get(&1), Some(&0));
    assert_eq!(map.get(&2), Some(&1));
    assert_eq!(map.get(&3), Some(&2));
    assert_eq!(map.get(&4), None);
    let (_, sizes) = components_and_sizes(&edges);
    assert_eq!(sizes, vec![3]);
}

#[test]
fn index_follows_first_sighting() {
    let edges = vec![(9, -4), (-4, 9), (0, 9)];
    let (map, n) = index_nodes(&edges);
    assert_eq!(n, 3);
    assert_eq!(map.get(&9), Some(&0));
    assert_eq!(map.get(&-4), Some(&1));
    assert_eq!(map.get(&0), Some(&2));
}

#[test]
fn node_count_ignores_repeats() {
    let edges = vec![(1, 2), (2, 1), (1, 2), (3, 3)];
    assert_eq!(node_count(&edges), 3);
}

#[test]
fn forest_merge_and_find() {
    let mut cc = ConnectedComponents::new(5);
    assert_eq!(cc.len(), 5);
    assert_eq!(cc.find_root(3), 3);
    cc.merge(0, 1);
    assert_eq!(cc.find_root(0), cc.find_root(1));
    assert_eq!(cc.find_root(0), 1);
    let r = cc.find_root(0);
    assert_eq!(cc.tree_size(r), 2);
    cc.merge(2, 3);
    cc.merge(1, 3);
    let r = cc.find_root(0);
    assert_eq!(cc.find_root(2), r);
    assert_eq!(cc.tree_size(r), 4);
    let lone = cc.find_root(4);
    assert_eq!(cc.tree_size(lone), 1);
}

#[test]
fn forest_merge_twice_changes_nothing() {
    let mut cc = ConnectedComponents::new(4);
    cc.merge(0, 1);
    let r = cc.find_root(0);
    let size = cc.tree_size(r);
    cc.merge(0, 1);
    assert_eq!(cc.find_root(0), r);
    assert_eq!(cc.find_root(1), r);
    assert_eq!(cc.tree_size(r), size);
    assert_eq!(cc.find_root(2), 2);
}

#[test]
fn forest_rank_decides_parent() {
    let mut cc = ConnectedComponents::new(4);
    cc.merge(0, 1);
    // root 1 now has rank 1; the singleton 2 goes under it
    cc.merge(2, 0);
    assert_eq!(cc.find_root(2), 1);
    assert_eq!(cc.tree_size(1), 3);
}

#[test]
fn forest_find_root_repeated() {
    let mut cc = ConnectedComponents::new(6);
    cc.merge(0, 1);
    cc.merge(2, 3);
    cc.merge(1, 3);
    cc.merge(4, 5);
    cc.merge(5, 3);
    let first = cc.find_root(0);
    let second = cc.find_root(0);
    assert_eq!(first, second);
    let mut total: usize = 0;
    for i in 0..6usize {
        if cc.find_root(i) == i {
            total += cc.tree_size(i);
        }
    }
    assert_eq!(total, 6);
}
