use pipeline::dedupe::connected_components_sorted;

#[test]
fn components_two_clusters_and_a_singleton() {
    // 0-1-2 form one component, 3-4 another, 5 alone.
    let edges = vec![(0, 1), (1, 2), (3, 4)];
    let mut comps = connected_components_sorted(6, &edges);
    // Sort each component and the outer list for stable assertion.
    for c in comps.iter_mut() {
        c.sort_unstable();
    }
    comps.sort_by_key(|c| c[0]);
    assert_eq!(comps, vec![vec![0, 1, 2], vec![3, 4], vec![5]]);
}

#[test]
fn components_come_sorted_without_resorting() {
    let edges = vec![(5, 2), (4, 0), (3, 1), (1, 5)];
    let comps = connected_components_sorted(7, &edges);
    assert_eq!(comps, vec![vec![0, 4], vec![1, 2, 3, 5], vec![6]]);
}

#[test]
fn no_nodes_no_components() {
    assert!(connected_components_sorted(0, &[]).is_empty());
    assert_eq!(connected_components_sorted(2, &[(1, 1)]), vec![vec![0], vec![1]]);
}
