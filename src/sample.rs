use crate::graph::{ids, occ, Graph, Node, NodeRef};
use vstd::prelude::*;

verus! {

/// A small graph with shared children, with handles to its three lower
/// nodes and the three parents held outside it.
pub struct SampleGraph {
    pub graph: Graph<i32>,
    pub a: NodeRef,
    pub b: NodeRef,
    pub c: NodeRef,
    pub roots: Vec<Node<i32>>,
}

/// `occ` of a sequence of one element.
proof fn lemma_occ_one(x: int, k: int)
    ensures
        occ(seq![x], k) == if x == k {
            1nat
        } else {
            0nat
        },
{
    assert(seq![x].drop_last() =~= Seq::<int>::empty());
    assert(occ(Seq::<int>::empty(), k) == 0);
    assert(seq![x].last() == x);
}

/// `occ` of a sequence of two elements.
proof fn lemma_occ_two(x: int, y: int, k: int)
    ensures
        occ(seq![x, y], k) == (if x == k {
            1nat
        } else {
            0nat
        }) + (if y == k {
            1nat
        } else {
            0nat
        }),
{
    assert(seq![x, y].drop_last() =~= seq![x]);
    lemma_occ_one(x, k);
}

/// Builds the sample graph bottom up: a leaf `a` (value 0); `b` (1) and `c`
/// (2), each holding a handle to `a`; then, outside the graph, `d` (3) and
/// `e` (4), each holding handles to `b` and `c`, and `f` (5) holding one to
/// `b`. The list of handles used to build `d` and `e` is given back at the
/// end, so the counts reflect only the owners that remain: `a` is held by
/// its own handle, `b` and `c`; `b` by its own handle, `d`, `e` and `f`; `c`
/// by its own handle, `d` and `e`.
pub fn make_graph() -> (r: SampleGraph)
    ensures
        r.graph.wf(),
        r.graph.live(r.a@),
        r.graph.live(r.b@),
        r.graph.live(r.c@),
        r.graph.value_at(r.a@) == 0,
        r.graph.value_at(r.b@) == 1,
        r.graph.value_at(r.c@) == 2,
        r.graph.kids(r.a@) == Seq::<int>::empty(),
        r.graph.kids(r.b@) == seq![r.a@],
        r.graph.kids(r.c@) == seq![r.a@],
        r.graph.count(r.a@) == 3,
        r.graph.count(r.b@) == 4,
        r.graph.count(r.c@) == 3,
        r.roots@.len() == 3,
        r.roots@[0].value == 3,
        r.roots@[0].kids() == seq![r.b@, r.c@],
        r.roots@[1].value == 4,
        r.roots@[1].kids() == seq![r.b@, r.c@],
        r.roots@[2].value == 5,
        r.roots@[2].kids() == seq![r.b@],
{
    let mut g: Graph<i32> = Graph::new();
    let a = g.share(Node::new(0));
    let ghost ga = g;
    let a1 = g.clone_ref(&a);
    proof {
        g.lemma_same_nodes(&ga);
        lemma_occ_one(a@, a@);
    }
    let nb = Node::new_with_child(1, a1);
    proof {
        assert(g.ext(a@) == 2);
        assert(nb.kids() =~= seq![a@]);
    }
    let b = g.share(nb);
    let ghost gb = g;
    proof {
        assert(g.live(a@));
        assert(g.ext(a@) == 1);
    }
    let a2 = g.clone_ref(&a);
    proof {
        g.lemma_same_nodes(&gb);
    }
    let nc = Node::new_with_child(2, a2);
    proof {
        assert(g.ext(a@) == 2);
        assert(nc.kids() =~= seq![a@]);
        lemma_occ_one(a@, b@);
    }
    let c = g.share(nc);
    let ghost gc = g;
    proof {
        assert(g.live(a@));
        assert(g.live(b@));
        assert(g.live(c@));
        assert(g.ext(b@) == 1 && g.ext(c@) == 1);
        assert(g.count(a@) == 3 && g.count(b@) == 1 && g.count(c@) == 1);
    }
    let bb = g.clone_ref(&b);
    proof {
        g.lemma_same_nodes(&gc);
    }
    let ghost gbb = g;
    let cc = g.clone_ref(&c);
    proof {
        g.lemma_same_nodes(&gbb);
    }
    let mut children: Vec<NodeRef> = Vec::new();
    children.push(bb);
    children.push(cc);
    proof {
        assert(ids(children@) =~= seq![b@, c@]);
        lemma_occ_two(b@, c@, a@);
        lemma_occ_two(b@, c@, b@);
        lemma_occ_two(b@, c@, c@);
    }
    proof {
        assert(g.ext(b@) == 2 && g.ext(c@) == 2);
        assert(g.count(a@) == 3 && g.count(b@) == 2 && g.count(c@) == 2);
    }
    let ghost gd = g;
    let d_children = g.clone_refs(&children);
    proof {
        g.lemma_same_nodes(&gd);
    }
    proof {
        assert(g.count(a@) == 3 && g.count(b@) == 3 && g.count(c@) == 3);
        assert(g.ext(b@) == 3 && g.ext(c@) == 3);
    }
    let d = Node::new_with_children(3, d_children);
    let ghost ge = g;
    let e_children = g.clone_refs(&children);
    proof {
        g.lemma_same_nodes(&ge);
    }
    let e = Node::new_with_children(4, e_children);
    let ghost gf = g;
    let b5 = g.clone_ref(&b);
    proof {
        g.lemma_same_nodes(&gf);
    }
    let f = Node::new_with_child(5, b5);
    let ghost gr = g;
    proof {
        assert(g.count(a@) == 3 && g.count(b@) == 5 && g.count(c@) == 4);
        assert(g.ext(b@) == 5 && g.ext(c@) == 4);
        assert(g.live(b@) && g.live(c@));
    }
    g.release_refs(children);
    proof {
        assert(g.live(b@));
        assert(g.live(c@));
        g.lemma_same_nodes(&gr);
    }
    let mut roots: Vec<Node<i32>> = Vec::new();
    roots.push(d);
    roots.push(e);
    roots.push(f);
    SampleGraph { graph: g, a, b, c, roots }
}

} // verus!
