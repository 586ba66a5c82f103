use shared_graph::{Graph, Node, NodeRef};

fn leaf(g: &mut Graph<i32>, value: i32) -> NodeRef {
    g.share(Node::new(value))
}

#[test]
fn shared_leaf_counts_each_parent() {
    let mut g: Graph<i32> = Graph::new();
    let a = leaf(&mut g, 0);
    let a1 = g.clone_ref(&a);
    let b = g.share(Node::new_with_child(1, a1));
    let a2 = g.clone_ref(&a);
    let c = g.share(Node::new_with_child(2, a2));
    assert_eq!(g.strong_count(&a), 3);
    assert_eq!(g.strong_count(&b), 1);
    assert_eq!(g.strong_count(&c), 1);
}

#[test]
fn temporary_clones_leave_no_trace() {
    let mut g: Graph<i32> = Graph::new();
    let a = leaf(&mut g, 0);
    let a1 = g.clone_ref(&a);
    let b = g.share(Node::new_with_child(1, a1));
    let a2 = g.clone_ref(&a);
    let c = g.share(Node::new_with_child(2, a2));

    let bb = g.clone_ref(&b);
    let cc = g.clone_ref(&c);
    let children = vec![bb, cc];
    let d_children = g.clone_refs(&children);
    let d = Node::new_with_children(3, d_children);
    let e_children = g.clone_refs(&children);
    let e = Node::new_with_children(4, e_children);
    assert_eq!(g.strong_count(&b), 4);
    g.release_refs(children);

    assert_eq!(g.strong_count(&b), 3);
    assert_eq!(g.strong_count(&c), 3);
    assert_eq!(g.strong_count(&a), 3);
    assert_eq!(d.value, 3);
    assert_eq!(e.value, 4);
    assert_eq!(d.children.len(), 2);
    assert_eq!(d.children[0].id(), b.id());
    assert_eq!(d.children[1].id(), c.id());
}

#[test]
fn graph_with_three_roots() {
    let mut g: Graph<i32> = Graph::new();
    let a = leaf(&mut g, 0);
    let a1 = g.clone_ref(&a);
    let b = g.share(Node::new_with_child(1, a1));
    let a2 = g.clone_ref(&a);
    let c = g.share(Node::new_with_child(2, a2));
    let bb = g.clone_ref(&b);
    let cc = g.clone_ref(&c);
    let children = vec![bb, cc];
    let d_children = g.clone_refs(&children);
    let d = Node::new_with_children(3, d_children);
    let e_children = g.clone_refs(&children);
    let e = Node::new_with_children(4, e_children);
    let b5 = g.clone_ref(&b);
    let f = Node::new_with_child(5, b5);
    g.release_refs(children);

    assert_eq!(g.strong_count(&a), 3);
    assert_eq!(g.strong_count(&b), 4);
    assert_eq!(g.strong_count(&c), 3);

    g.drop_node(d);
    assert_eq!(g.strong_count(&b), 3);
    assert_eq!(g.strong_count(&c), 2);
    g.drop_node(e);
    g.drop_node(f);
    assert_eq!(g.strong_count(&b), 1);
    assert_eq!(g.strong_count(&c), 1);
    assert_eq!(g.strong_count(&a), 3);
}

#[test]
fn clone_then_release_restores_count() {
    let mut g: Graph<i32> = Graph::new();
    let a = leaf(&mut g, 7);
    assert_eq!(g.strong_count(&a), 1);
    let a1 = g.clone_ref(&a);
    assert_eq!(a1.id(), a.id());
    assert_eq!(g.strong_count(&a), 2);
    g.release(a1);
    assert_eq!(g.strong_count(&a), 1);
    assert!(g.is_live(a.id()));
}

#[test]
fn dropping_a_parent_frees_down_the_chain() {
    let mut g: Graph<i32> = Graph::new();
    let a = leaf(&mut g, 0);
    let a_id = a.id();
    let b = g.share(Node::new_with_child(1, a));
    let b_id = b.id();
    let keep = g.clone_ref(&b);
    let p = Node::new_with_child(2, b);
    assert_eq!(g.strong_count(&keep), 2);

    g.drop_node(p);
    assert_eq!(g.strong_count(&keep), 1);
    assert!(g.is_live(a_id));

    g.release(keep);
    assert!(!g.is_live(b_id));
    assert!(!g.is_live(a_id));
    assert_eq!(g.slot_count(), 2);
}

#[test]
fn shared_child_survives_while_another_parent_holds_it() {
    let mut g: Graph<i32> = Graph::new();
    let a = leaf(&mut g, 0);
    let a_id = a.id();
    let a1 = g.clone_ref(&a);
    let b = g.share(Node::new_with_child(1, a1));
    let b_id = b.id();
    let c = g.share(Node::new_with_child(2, a));
    assert_eq!(g.strong_count(&c), 1);
    g.release(b);
    assert!(!g.is_live(b_id));
    assert!(g.is_live(a_id));
    let a_again = &g.node(&c).children[0];
    assert_eq!(g.strong_count(a_again), 1);
}

#[test]
fn mutation_is_seen_through_every_handle() {
    let mut g: Graph<i32> = Graph::new();
    let shared = leaf(&mut g, 5);
    let s1 = g.clone_ref(&shared);
    let a = g.share(Node::new_with_child(0, s1));
    let s2 = g.clone_ref(&shared);
    let aa = g.share(Node::new_with_child(1, s2));

    let current = *g.value(&shared);
    g.set_value(&shared, current + 10);

    assert_eq!(*g.value(&shared), 15);
    assert_eq!(*g.value(&g.node(&a).children[0]), 15);
    assert_eq!(*g.value(&g.node(&aa).children[0]), 15);
    assert_eq!(g.strong_count(&shared), 3);
    assert_eq!(*g.value(&a), 0);
}

#[test]
fn has_descendant_follows_children_transitively() {
    let mut g: Graph<i32> = Graph::new();
    let a = leaf(&mut g, 0);
    let a1 = g.clone_ref(&a);
    let b = g.share(Node::new_with_child(1, a1));
    let b1 = g.clone_ref(&b);
    let c = g.share(Node::new_with_child(2, b1));

    assert!(g.has_descendant(&b, &a));
    assert!(g.has_descendant(&c, &b));
    assert!(g.has_descendant(&c, &a));
    assert!(!g.has_descendant(&a, &c));
    assert!(!g.has_descendant(&c, &c));
    assert!(!g.has_descendant(&a, &a));

    let c1 = g.clone_ref(&c);
    let root = Node::new_with_child(3, c1);
    assert!(root.has_descendant(&g, &c));
    assert!(root.has_descendant(&g, &a));
}

#[test]
fn has_descendant_is_false_for_unrelated_node() {
    let mut g: Graph<i32> = Graph::new();
    let a = leaf(&mut g, 0);
    let a1 = g.clone_ref(&a);
    let b = g.share(Node::new_with_child(1, a1));
    let a2 = g.clone_ref(&a);
    let c = g.share(Node::new_with_child(2, a2));
    let stranger = leaf(&mut g, 0);
    let bb = g.clone_ref(&b);
    let cc = g.clone_ref(&c);
    let d = Node::new_with_children(3, vec![bb, cc]);

    assert!(!d.has_descendant(&g, &stranger));
    assert!(!g.has_descendant(&b, &stranger));
    assert!(!g.has_descendant(&b, &c));
    assert!(d.has_descendant(&g, &a));
}

#[test]
fn node_construction_and_add_child() {
    let mut g: Graph<&str> = Graph::new();
    let x = g.share(Node::new("x"));
    let y = g.share(Node::new("y"));
    let mut n = Node::new("n");
    assert!(n.children.is_empty());
    let x1 = g.clone_ref(&x);
    n.add_child(x1);
    let y1 = g.clone_ref(&y);
    n.add_child(y1);
    assert_eq!(n.children.len(), 2);
    assert_eq!(n.children[0].id(), x.id());
    assert_eq!(n.children[1].id(), y.id());
    assert!(n.has_descendant(&g, &y));
    let h = g.share(n);
    assert_eq!(*g.value(&h), "n");
    assert_eq!(g.strong_count(&x), 2);
    assert!(!Node::new("lone").has_descendant(&g, &x));
}

#[test]
fn sample_graph_counts() {
    let s = shared_graph::sample::make_graph();
    assert_eq!(s.graph.strong_count(&s.a), 3);
    assert_eq!(s.graph.strong_count(&s.b), 4);
    assert_eq!(s.graph.strong_count(&s.c), 3);
    assert_eq!(s.roots.len(), 3);
    assert_eq!(s.roots[0].value, 3);
    assert_eq!(s.roots[1].value, 4);
    assert_eq!(s.roots[2].value, 5);
    assert_eq!(s.roots[2].children.len(), 1);
    assert_eq!(s.roots[2].children[0].id(), s.b.id());
    assert!(s.roots[0].has_descendant(&s.graph, &s.a));
    assert!(!s.graph.has_descendant(&s.b, &s.c));
}
