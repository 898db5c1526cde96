use lr_parsing_tools::index_set::IndexSet;
use lr_parsing_tools::transitive_closure::transitive_closure;

fn unit_sets(count: usize) -> Vec<IndexSet> {
    (0..count)
        .map(|x| {
            let mut set = IndexSet::new();
            set.insert(x);
            set
        })
        .collect()
}

fn graph(count: usize, edges: &[(usize, &[usize])]) -> Vec<Vec<usize>> {
    let mut successors = vec![Vec::new(); count];
    for (x, ys) in edges {
        successors[*x] = ys.to_vec();
    }
    successors
}

fn members(set: &IndexSet) -> Vec<usize> {
    set.as_slice().to_vec()
}

#[test]
fn tarjan_test_1() {
    let successors = graph(6, &[(0, &[1]), (1, &[2]), (2, &[0, 3, 5]), (4, &[3])]);
    let mut reachable_nodes = unit_sets(6);
    let has_cycle = transitive_closure(&mut reachable_nodes, &successors);
    let counts: Vec<usize> = reachable_nodes.iter().map(IndexSet::len).collect();
    assert_eq!(counts, [5, 5, 5, 1, 2, 1]);
    assert!(has_cycle);
}

#[test]
fn tarjan_test_2() {
    let successors = graph(
        8,
        &[
            (0, &[1, 4]),
            (1, &[5]),
            (2, &[1, 3, 6]),
            (3, &[6]),
            (4, &[0, 5]),
            (5, &[2, 6]),
            (6, &[7]),
            (7, &[3]),
        ],
    );
    let mut reachable_nodes = unit_sets(8);
    let has_cycle = transitive_closure(&mut reachable_nodes, &successors);
    let counts: Vec<usize> = reachable_nodes.iter().map(IndexSet::len).collect();
    assert_eq!(counts, [8, 6, 6, 3, 8, 6, 3, 3]);
    assert!(has_cycle);
}

#[test]
fn tarjan_test_3() {
    let successors = graph(3, &[(0, &[1]), (2, &[1])]);
    let mut reachable_nodes = unit_sets(3);
    let has_cycle = transitive_closure(&mut reachable_nodes, &successors);
    let counts: Vec<usize> = reachable_nodes.iter().map(IndexSet::len).collect();
    assert_eq!(counts, [2, 1, 2]);
    assert!(!has_cycle);
}

#[test]
fn tarjan_test_4() {
    let successors = graph(3, &[(0, &[1, 2]), (2, &[1])]);
    let mut reachable_nodes = unit_sets(3);
    let has_cycle = transitive_closure(&mut reachable_nodes, &successors);
    let counts: Vec<usize> = reachable_nodes.iter().map(IndexSet::len).collect();
    assert_eq!(counts, [3, 1, 2]);
    assert!(!has_cycle);
}

#[test]
fn tarjan_test_5() {
    let successors = graph(4, &[(0, &[2, 3]), (2, &[1]), (3, &[1])]);
    let mut reachable_nodes = unit_sets(4);
    let has_cycle = transitive_closure(&mut reachable_nodes, &successors);
    let counts: Vec<usize> = reachable_nodes.iter().map(IndexSet::len).collect();
    assert_eq!(counts, [4, 1, 2, 2]);
    assert!(!has_cycle);
}

#[test]
fn tarjan_test_6() {
    // Initialized to unit sets containing themselves.
    let mut reachable_nodes: Vec<IndexSet> = (0..6)
        .map(|x| {
            let mut set = IndexSet::new();
            set.insert(x);
            set
        })
        .collect();

    // Successors are given by an adjacency list.
    let successors = graph(6, &[(0, &[1]), (1, &[2]), (2, &[0, 3, 5]), (4, &[3])]);

    let has_cycle = transitive_closure(&mut reachable_nodes, &successors);
    let counts: Vec<usize> = reachable_nodes.iter().map(IndexSet::len).collect();

    assert_eq!(counts, [5, 5, 5, 1, 2, 1]);
    assert!(has_cycle);
}

#[test]
fn closure_collects_exactly_the_reachable_sets() {
    let successors = graph(6, &[(0, &[1]), (1, &[2]), (2, &[0, 3, 5]), (4, &[3])]);
    let mut values = unit_sets(6);
    transitive_closure(&mut values, &successors);
    assert_eq!(members(&values[0]), [0, 1, 2, 3, 5]);
    assert_eq!(members(&values[1]), [0, 1, 2, 3, 5]);
    assert_eq!(members(&values[2]), [0, 1, 2, 3, 5]);
    assert_eq!(members(&values[3]), [3]);
    assert_eq!(members(&values[4]), [3, 4]);
    assert_eq!(members(&values[5]), [5]);
}

#[test]
fn closure_self_loop_is_no_cycle() {
    let successors = graph(2, &[(0, &[0, 1])]);
    let mut values = unit_sets(2);
    let has_cycle = transitive_closure(&mut values, &successors);
    assert!(!has_cycle);
    assert_eq!(members(&values[0]), [0, 1]);
    assert_eq!(members(&values[1]), [1]);
}

#[test]
fn closure_of_nothing() {
    let successors: Vec<Vec<usize>> = Vec::new();
    let mut values: Vec<IndexSet> = Vec::new();
    assert!(!transitive_closure(&mut values, &successors));
    assert!(values.is_empty());
}

#[test]
fn closure_two_cycle() {
    let successors = graph(2, &[(0, &[1]), (1, &[0])]);
    let mut values = unit_sets(2);
    assert!(transitive_closure(&mut values, &successors));
    assert_eq!(members(&values[0]), [0, 1]);
    assert_eq!(members(&values[1]), [0, 1]);
}

#[test]
fn index_set_insert_keeps_order_and_tells_new() {
    let mut set = IndexSet::new();
    assert!(set.insert(5));
    assert!(set.insert(1));
    assert!(!set.insert(5));
    assert!(set.insert(3));
    assert_eq!(members(&set), [1, 3, 5]);
    assert!(set.contains(3));
    assert!(!set.contains(4));
    let mut other = IndexSet::new();
    other.insert(3);
    assert!(!set.union_with(&other));
    other.insert(9);
    assert!(set.union_with(&other));
    assert_eq!(members(&set), [1, 3, 5, 9]);
}
