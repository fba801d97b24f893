use local_flags::regularity::{
    extension_in_range, regularity_plan, weaker_type_size_in_range, MAX_TYPE_SIZE,
};
use local_flags::orbits::{same_bytes, vertex_orbits};
use local_flags::{Degree, SimpleGraph};

fn path(n: usize) -> SimpleGraph {
    let mut edges = Vec::new();
    for i in 1..n {
        edges.push((i - 1, i));
    }
    SimpleGraph::new(n, &edges)
}

#[test]
fn new_graph_is_symmetric_without_loops() {
    let g = SimpleGraph::new(3, &vec![(0, 1), (2, 2)]);
    assert_eq!(g.size(), 3);
    assert!(g.is_edge(0, 1));
    assert!(g.is_edge(1, 0));
    assert!(!g.is_edge(2, 2));
    assert!(!g.is_edge(1, 2));
    assert!(!g.is_edge(0, 0));
}

#[test]
fn path_is_connected() {
    let g = path(5);
    assert!(g.is_connected());
    assert!(g.is_connected_to(|i| i == 4));
}

#[test]
fn two_components_are_not_connected() {
    let g = SimpleGraph::new(4, &vec![(0, 1), (2, 3)]);
    assert!(!g.is_connected());
    assert!(!g.is_connected_to(|i| i < 2));
    assert!(g.is_connected_to(|i| i == 1 || i == 2));
    assert!(!g.is_connected_to(|_| false));
}

#[test]
fn isolated_vertex_needs_a_seed() {
    let g = SimpleGraph::new(3, &vec![(0, 1)]);
    assert!(!g.is_connected());
    assert!(g.is_connected_to(|i| i != 1));
}

#[test]
fn empty_flag_is_connected_to_anything() {
    let g = SimpleGraph::new(0, &vec![]);
    assert!(g.is_connected());
    assert!(g.is_connected_to(|_| false));
    assert!(g.is_connected_to(|_| true));
}

#[test]
fn single_vertex_is_connected() {
    let g = SimpleGraph::new(1, &vec![]);
    assert!(g.is_connected());
    assert!(!g.is_connected_to(|_| false));
}

#[test]
fn is_connected_is_seeded_at_vertex_zero() {
    let graphs = vec![
        path(4),
        SimpleGraph::new(4, &vec![(1, 2), (2, 3)]),
        SimpleGraph::new(4, &vec![(0, 3), (3, 1), (1, 2)]),
        SimpleGraph::new(2, &vec![]),
    ];
    for g in graphs.iter() {
        assert_eq!(g.is_connected(), g.is_connected_to(|i| i == 0));
    }
}

#[test]
fn joins_root_from_checks_the_added_vertices() {
    let star = SimpleGraph::new(4, &vec![(0, 1), (0, 2), (0, 3)]);
    assert!(star.joins_root_from(1));
    let g = SimpleGraph::new(4, &vec![(0, 1), (1, 2), (0, 3)]);
    assert!(!g.joins_root_from(1));
    assert!(g.joins_root_from(3));
    assert!(g.joins_root_from(4));
}

#[test]
fn single_edge_has_one_orbit() {
    let forms = vec![vec![7u8, 1], vec![7u8, 1]];
    let reps = vertex_orbits(&forms);
    assert_eq!(reps, vec![0]);
    assert_eq!(reps.len(), 1);
}

#[test]
fn path_on_three_vertices_has_two_orbits() {
    let forms = vec![vec![1u8, 0], vec![2u8], vec![1u8, 0]];
    assert_eq!(vertex_orbits(&forms), vec![0, 1]);
}

#[test]
fn orbits_of_rigid_and_empty_flags() {
    let forms = vec![vec![1u8], vec![1u8, 2], vec![2u8]];
    assert_eq!(vertex_orbits(&forms), vec![0, 1, 2]);
    assert_eq!(vertex_orbits(&vec![]), Vec::<usize>::new());
}

#[test]
fn byte_strings_compare() {
    assert!(same_bytes(&vec![1, 2, 3], &vec![1, 2, 3]));
    assert!(!same_bytes(&vec![1, 2, 3], &vec![1, 2]));
    assert!(!same_bytes(&vec![1, 2, 3], &vec![1, 5, 3]));
    assert!(same_bytes(&vec![], &vec![]));
}

#[test]
fn regularity_plan_goes_around_each_cycle() {
    let orbits = vec![vec![0], vec![0, 1], vec![0, 2, 3]];
    let plan = regularity_plan(&orbits);
    assert_eq!(
        plan,
        vec![(1, 0, 1), (1, 1, 0), (2, 0, 2), (2, 2, 3), (2, 3, 0)]
    );
}

#[test]
fn regularity_plan_is_empty_without_symmetry() {
    let orbits = vec![vec![0], vec![0], vec![0]];
    assert!(regularity_plan(&orbits).is_empty());
    assert!(regularity_plan(&vec![]).is_empty());
}

#[test]
fn regularity_plan_counts_symmetric_orbits() {
    let orbits = vec![vec![0, 1, 2, 3], vec![0], vec![1, 2]];
    assert_eq!(regularity_plan(&orbits).len(), 6);
}

#[test]
fn extension_range_guard() {
    assert_eq!(MAX_TYPE_SIZE, 12);
    assert!(extension_in_range(3, 2));
    assert!(!extension_in_range(3, 3));
    assert!(extension_in_range(12, 11));
    assert!(!extension_in_range(13, 0));
    assert!(!extension_in_range(0, 0));
}

#[test]
fn weaker_type_size_guard() {
    assert!(!weaker_type_size_in_range(0, 4));
    assert!(weaker_type_size_in_range(1, 4));
    assert!(weaker_type_size_in_range(3, 4));
    assert!(!weaker_type_size_in_range(4, 4));
}
