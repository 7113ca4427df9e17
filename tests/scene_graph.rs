use ray_tracer::scene_graph::{Group, NodeTypes};

#[test]
fn intersecting_a_ray_with_an_empty_group() {
    let g = Group::new();
    assert!(g.shape_paths(0).is_empty());
    assert!(g.children_of(0).is_empty());
    assert_eq!(g.kind_of(0), NodeTypes::Matrix);
    assert_eq!(g.parent_of(0), None);
}

#[test]
fn shapes_directly_under_the_root_have_empty_paths() {
    let mut g = Group::new();
    let s1 = g.add_node(Some(0));
    let s2 = g.add_node(Some(0));
    let s3 = g.add_node(Some(0));
    assert_eq!((s1, s2, s3), (1, 2, 3));
    assert_eq!(g.children_of(0), vec![1, 2, 3]);
    assert_eq!(g.shape_paths(0), vec![(1, vec![]), (2, vec![]), (3, vec![])]);
}

#[test]
fn a_shape_under_a_transform_carries_the_transform() {
    let mut g = Group::new();
    let m = g.add_matrix(Some(0));
    let s = g.add_node(Some(m));
    assert_eq!(g.kind_of(m), NodeTypes::Matrix);
    assert_eq!(g.kind_of(s), NodeTypes::Shape);
    assert_eq!(g.parent_of(s), Some(m));
    assert_eq!(g.shape_paths(0), vec![(s, vec![m])]);
    assert_eq!(g.shape_paths(m), vec![(s, vec![])]);
}

#[test]
fn nested_transforms_are_listed_outermost_first() {
    let mut g = Group::new();
    let m1 = g.add_matrix(None);
    let m2 = g.add_matrix(Some(m1));
    let s = g.add_node(Some(m2));
    assert_eq!(g.parent_chain(Some(s)), vec![s, m2, m1]);
    assert_eq!(g.parent_chain(Some(m2)), vec![m2, m1]);
    assert_eq!(g.parent_chain(None), Vec::<usize>::new());
    assert_eq!(g.shape_paths(m1), vec![(s, vec![m2])]);
    // m1 hangs under no parent, so the root does not reach it.
    assert!(g.shape_paths(0).is_empty());
}

#[test]
fn the_hexagon_graph_reaches_every_corner_and_edge() {
    let mut g = Group::new();
    let mut expected = vec![];
    for _ in 0..6 {
        let m = g.add_matrix(Some(0));
        let corner = g.add_node(Some(m));
        let edge = g.add_node(Some(m));
        expected.push((corner, vec![m]));
        expected.push((edge, vec![m]));
    }
    assert_eq!(g.shape_paths(0), expected);
    assert_eq!(g.children_of(0).len(), 6);
}

#[test]
fn nodes_under_a_shape_are_not_reached() {
    let mut g = Group::new();
    let s = g.add_node(Some(0));
    let _under = g.add_node(Some(s));
    assert_eq!(g.shape_paths(0), vec![(s, vec![])]);
    assert_eq!(g.parent_chain(Some(_under)), vec![_under, s, 0]);
}
