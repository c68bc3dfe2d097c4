use graphs::{init, Graph, GraphError, Node};
use std::cell::RefCell;

fn strings(v: &[&str]) -> Vec<String> {
    v.iter().map(|s| s.to_string()).collect()
}

fn built() -> (Graph, Node) {
    let mut arena = Graph::new();
    let root = init(&mut arena);
    (arena, root)
}

#[test]
fn built_graph_visits_each_label_once() {
    let (arena, root) = built();
    let order = root.visit_order(&arena, &mut Vec::new());
    assert_eq!(order.len(), 6);
    for l in ["A", "B", "C", "D", "E", "F"] {
        assert_eq!(order.iter().filter(|x| x.as_str() == l).count(), 1);
    }
}

#[test]
fn traversal_order_from_root() {
    let (arena, root) = built();
    let mut seen = Vec::new();
    let order = root.visit_order(&arena, &mut seen);
    assert_eq!(order, strings(&["A", "B", "C", "E", "F", "D"]));
    assert_eq!(seen, order);
}

#[test]
fn traverse_hands_labels_to_visitor_in_order() {
    let (arena, root) = built();
    let got = RefCell::new(Vec::new());
    let r: Result<(), ()> = root.traverse(
        &arena,
        |d: &str| {
            got.borrow_mut().push(d.to_string());
            Ok(())
        },
        &mut Vec::new(),
    );
    assert_eq!(r, Ok(()));
    assert_eq!(got.into_inner(), strings(&["A", "B", "C", "E", "F", "D"]));
}

#[test]
fn first_edge_of_root_is_b() {
    let (arena, root) = built();
    let b = root.first(&arena).unwrap();
    assert_eq!(arena.label_of(b), "B");
}

#[test]
fn leaf_visits_only_itself() {
    let mut arena = Graph::new();
    let n = Node::new("Z", &mut arena);
    assert_eq!(n.visit_order(&arena, &mut Vec::new()), strings(&["Z"]));
    let r: Result<(), ()> = n.traverse(&arena, |_d: &str| Ok(()), &mut Vec::new());
    assert_eq!(r, Ok(()));
    assert_eq!(n.first(&arena), Err(GraphError::EmptyEdgeList));
}

#[test]
fn leaf_of_built_graph_has_no_first_edge() {
    let (arena, root) = built();
    let b = root.first(&arena).unwrap();
    assert_eq!(b.first(&arena), Err(GraphError::EmptyEdgeList));
    assert_eq!(b.visit_order(&arena, &mut Vec::new()), strings(&["B"]));
}

#[test]
fn traversal_is_repeatable() {
    let (arena, root) = built();
    let first = root.visit_order(&arena, &mut Vec::new());
    let second = root.visit_order(&arena, &mut Vec::new());
    assert_eq!(first, second);
}

#[test]
fn edge_added_after_sharing_is_followed() {
    let (mut arena, root) = built();
    // D is already the target of an edge from A.
    let d = Node { id: root.id + 3 };
    assert_eq!(arena.label_of(d), "D");
    let g = Node::new("G", &mut arena);
    d.add_edge(g, &mut arena);
    let order = root.visit_order(&arena, &mut Vec::new());
    assert_eq!(order, strings(&["A", "B", "C", "E", "F", "D", "G"]));
}

#[test]
fn back_edge_to_shared_node_is_skipped() {
    let (mut arena, root) = built();
    let e = Node { id: root.id + 4 };
    let b = Node { id: root.id + 1 };
    e.add_edge(b, &mut arena);
    e.add_edge(e, &mut arena);
    let order = root.visit_order(&arena, &mut Vec::new());
    assert_eq!(order, strings(&["A", "B", "C", "E", "F", "D"]));
}

#[test]
fn self_loop_terminates() {
    let mut arena = Graph::new();
    let n = Node::new("N", &mut arena);
    n.add_edge(n, &mut arena);
    assert_eq!(n.first(&arena), Ok(n));
    assert_eq!(n.visit_order(&arena, &mut Vec::new()), strings(&["N"]));
}

#[test]
fn visitor_failure_stops_traversal() {
    let (arena, root) = built();
    let got = RefCell::new(Vec::new());
    let mut seen = Vec::new();
    let r = root.traverse(
        &arena,
        |d: &str| {
            got.borrow_mut().push(d.to_string());
            if d == "C" {
                Err(format!("stop at {}", d))
            } else {
                Ok(())
            }
        },
        &mut seen,
    );
    assert_eq!(r, Err("stop at C".to_string()));
    assert_eq!(got.into_inner(), strings(&["A", "B", "C"]));
    assert_eq!(seen, strings(&["A", "B"]));
}

#[test]
fn visitor_failing_at_once_leaves_seen_unchanged() {
    let (arena, root) = built();
    let calls = RefCell::new(0usize);
    let mut seen = strings(&["Q"]);
    let r = root.traverse(
        &arena,
        |_d: &str| {
            *calls.borrow_mut() += 1;
            Err(7u8)
        },
        &mut seen,
    );
    assert_eq!(r, Err(7u8));
    assert_eq!(*calls.borrow(), 1);
    assert_eq!(seen, strings(&["Q"]));
}

#[test]
fn labels_already_seen_are_skipped() {
    let (arena, root) = built();
    let mut seen = strings(&["C"]);
    let order = root.visit_order(&arena, &mut seen);
    assert_eq!(order, strings(&["A", "B", "D"]));
    assert_eq!(seen, strings(&["C", "A", "B", "D"]));
}

#[test]
fn nodes_with_equal_labels_count_once() {
    let mut arena = Graph::new();
    let a = Node::new("X", &mut arena);
    let b = Node::new("X", &mut arena);
    let c = Node::new("Y", &mut arena);
    a.add_edge(b, &mut arena);
    b.add_edge(c, &mut arena);
    assert_eq!(a.visit_order(&arena, &mut Vec::new()), strings(&["X"]));
}

#[test]
fn init_appends_to_a_used_arena() {
    let mut arena = Graph::new();
    let z = Node::new("Z", &mut arena);
    let root = init(&mut arena);
    assert_eq!(root.id, 1);
    assert_eq!(arena.node_count(), 7);
    assert_eq!(arena.label_of(z), "Z");
    assert_eq!(arena.label_of(root), "A");
    let c = Node { id: root.id + 2 };
    let targets: Vec<usize> = arena.edges_of(c).iter().map(|n| n.id).collect();
    assert_eq!(targets, vec![root.id + 4, root.id + 5, root.id]);
    assert_eq!(arena.edge_targets(root), &vec![2, 3, 4]);
}

#[test]
fn empty_arena_has_no_nodes() {
    let arena = Graph::new();
    assert_eq!(arena.node_count(), 0);
}

#[test]
fn edge_added_after_sharing_brings_all_it_reaches() {
    let (mut arena, root) = built();
    let before = root.visit_order(&arena, &mut Vec::new());
    let g = Node::new("G", &mut arena);
    let h = Node::new("H", &mut arena);
    g.add_edge(h, &mut arena);
    g.add_edge(root, &mut arena);
    // F is shared: C already points to it.
    let f = Node { id: root.id + 5 };
    f.add_edge(g, &mut arena);
    let after = root.visit_order(&arena, &mut Vec::new());
    assert_eq!(after, strings(&["A", "B", "C", "E", "F", "G", "H", "D"]));
    for l in before.iter() {
        assert!(after.contains(l));
    }
}
