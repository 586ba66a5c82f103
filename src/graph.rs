use vstd::prelude::*;

verus! {

/// An owning handle to a node stored in a [`Graph`].
///
/// A handle stands for one unit of its node's strong count. It is not `Clone`:
/// a second handle is obtained only through [`Graph::clone_ref`], which counts
/// it, and a handle is given back through [`Graph::release`], which consumes it,
/// so no handle can be released twice.
#[derive(Debug)]
pub struct NodeRef {
    id: usize,
}

impl View for NodeRef {
    type V = int;

    /// The slot of the node that the handle refers to.
    closed spec fn view(&self) -> int {
        self.id as int
    }
}

impl NodeRef {
    /// The slot of the node that the handle refers to; two handles alias the
    /// same node exactly when their slots are equal.
    pub fn id(&self) -> (r: usize)
        ensures
            r as int == self@,
    {
        self.id
    }
}

/// The slots that a sequence of handles refers to, in order.
pub open spec fn ids(s: Seq<NodeRef>) -> Seq<int> {
    s.map_values(|r: NodeRef| r@)
}

/// How many times `k` occurs in `s`.
pub open spec fn occ(s: Seq<int>, k: int) -> nat
    decreases s.len(),
{
    if s.len() == 0 {
        0
    } else {
        occ(s.drop_last(), k) + if s.last() == k {
            1nat
        } else {
            0nat
        }
    }
}

/// A node: a payload and an ordered list of owning handles to its children.
#[derive(Debug)]
pub struct Node<T> {
    pub value: T,
    pub children: Vec<NodeRef>,
}

impl<T> Node<T> {
    /// The slots of the node's children, in order.
    pub open spec fn kids(&self) -> Seq<int> {
        ids(self.children@)
    }

    /// A node without children.
    pub fn new(value: T) -> (r: Node<T>)
        ensures
            r.value == value,
            r.children@.len() == 0,
    {
        Node { value, children: Vec::new() }
    }

    /// A node that owns the one handle `child`.
    pub fn new_with_child(value: T, child: NodeRef) -> (r: Node<T>)
        ensures
            r.value == value,
            r.children@ == seq![child],
    {
        let mut children: Vec<NodeRef> = Vec::new();
        children.push(child);
        Node { value, children }
    }

    /// A node that owns exactly the handles of `children`, in their order. A
    /// caller that wants to keep handles of its own clones them beforehand.
    pub fn new_with_children(value: T, children: Vec<NodeRef>) -> (r: Node<T>)
        ensures
            r.value == value,
            r.children@ == children@,
    {
        Node { value, children }
    }

    /// Appends the handle `child` to the node's children.
    pub fn add_child(&mut self, child: NodeRef)
        ensures
            final(self).value == old(self).value,
            final(self).children@ == old(self).children@.push(child),
    {
        self.children.push(child);
    }

    /// Whether `node` is one of this node's children or a descendant of one
    /// of them in `graph`, compared by handle identity, not by payload.
    pub fn has_descendant(&self, graph: &Graph<T>, node: &NodeRef) -> (r: bool)
        requires
            graph.wf(),
            forall|k: int| 0 <= k < self.kids().len() ==> graph.live(#[trigger] self.kids()[k]),
        ensures
            r == graph.descends(self.kids(), node@),
    {
        proof {
            assert forall|k: int| 0 <= k < self.children@.len() implies graph.live(#[trigger] ids(self.children@)[k])
                && ids(self.children@)[k] < graph.len() by {
                assert(self.kids()[k] == ids(self.children@)[k]);
            }
        }
        graph.any_has_descendant(&self.children, node, Ghost(graph.len()))
    }
}

/// How many handles the live nodes among the first `n` slots of `s` hold to `j`.
pub open spec fn indeg_upto<T>(s: Seq<Option<Node<T>>>, n: int, j: int) -> nat
    decreases n,
{
    if n <= 0 {
        0
    } else {
        indeg_upto(s, n - 1, j) + holds(s[n - 1], j)
    }
}

/// How many handles the slot `o` holds to `j`.
pub open spec fn holds<T>(o: Option<Node<T>>, j: int) -> nat {
    match o {
        Some(nd) => occ(nd.kids(), j),
        None => 0,
    }
}

/// `occ` of a sequence with one more element.
proof fn lemma_occ_push(s: Seq<int>, x: int, k: int)
    ensures
        occ(s.push(x), k) == occ(s, k) + if x == k {
            1nat
        } else {
            0nat
        },
{
    assert(s.push(x).drop_last() =~= s);
}

/// An element occurs in a sequence exactly when it is contained in it.
proof fn lemma_occ_contains(s: Seq<int>, k: int)
    ensures
        occ(s, k) > 0 <==> s.contains(k),
    decreases s.len(),
{
    if s.len() > 0 {
        lemma_occ_contains(s.drop_last(), k);
        if s.drop_last().contains(k) {
            let i = choose|i: int| 0 <= i < s.drop_last().len() && s.drop_last()[i] == k;
            assert(s[i] == k);
        }
        if s.contains(k) && s.last() != k {
            let i = choose|i: int| 0 <= i < s.len() && s[i] == k;
            assert(s.drop_last()[i] == k);
        }
    }
}

/// `occ` of a concatenation.
proof fn lemma_occ_append(a: Seq<int>, b: Seq<int>, k: int)
    ensures
        occ(a + b, k) == occ(a, k) + occ(b, k),
    decreases b.len(),
{
    if b.len() > 0 {
        lemma_occ_append(a, b.drop_last(), k);
        assert((a + b).drop_last() =~= a + b.drop_last());
    }
}

/// The sum of the first `n` counts of `s`.
pub open spec fn total(s: Seq<usize>, n: int) -> nat
    decreases n,
{
    if n <= 0 {
        0
    } else {
        total(s, n - 1) + s[n - 1] as nat
    }
}

/// Replacing one count changes the sum by the difference.
proof fn lemma_total_update(s: Seq<usize>, idx: int, v: usize, n: int)
    requires
        0 <= idx < s.len(),
        n <= s.len(),
    ensures
        total(s.update(idx, v), n) + (if idx < n {
            s[idx] as int
        } else {
            0
        }) == total(s, n) + (if idx < n {
            v as int
        } else {
            0
        }),
    decreases n,
{
    if n > 0 {
        lemma_total_update(s, idx, v, n - 1);
    }
}

/// Replacing slot `idx` changes the handles held by the first `n` slots by
/// what the old and the new content of that slot hold.
proof fn lemma_indeg_update<T>(s: Seq<Option<Node<T>>>, idx: int, v: Option<Node<T>>, n: int, j: int)
    requires
        0 <= idx < s.len(),
        n <= s.len(),
    ensures
        indeg_upto(s.update(idx, v), n, j) + (if idx < n {
            holds(s[idx], j)
        } else {
            0
        }) == indeg_upto(s, n, j) + (if idx < n {
            holds(v, j)
        } else {
            0
        }),
    decreases n,
{
    if n > 0 {
        lemma_indeg_update(s, idx, v, n - 1, j);
    }
}

/// Appending a slot leaves what the earlier slots hold unchanged.
proof fn lemma_indeg_push<T>(s: Seq<Option<Node<T>>>, v: Option<Node<T>>, n: int, j: int)
    requires
        n <= s.len(),
    ensures
        indeg_upto(s.push(v), n, j) == indeg_upto(s, n, j),
    decreases n,
{
    if n > 0 {
        lemma_indeg_push(s, v, n - 1, j);
    }
}

/// What one slot holds is part of what all slots hold.
proof fn lemma_indeg_lower<T>(s: Seq<Option<Node<T>>>, i: int, n: int, j: int)
    requires
        0 <= i < n <= s.len(),
    ensures
        indeg_upto(s, n, j) >= holds(s[i], j),
    decreases n,
{
    if n - 1 > i {
        lemma_indeg_lower(s, i, n - 1, j);
    }
}

/// Slots of which none holds `j` hold no handle to it.
proof fn lemma_indeg_zero<T>(s: Seq<Option<Node<T>>>, n: int, j: int)
    requires
        n <= s.len(),
        forall|i: int| 0 <= i < n ==> holds(#[trigger] s[i], j) == 0,
    ensures
        indeg_upto(s, n, j) == 0,
    decreases n,
{
    if n > 0 {
        lemma_indeg_zero(s, n - 1, j);
    }
}

/// An arena of reference-counted nodes.
///
/// Each slot holds a live node or is free, and has a strong count: the number
/// of handles to it that exist, whether held by other live nodes of the
/// graph or outside it. A slot is freed exactly when its count reaches zero,
/// and freeing a node gives back the handles it holds. Slots are never
/// reused. A node's children always occupy lower slots than the node, so the
/// graph is acyclic.
pub struct Graph<T> {
    slots: Vec<Option<Node<T>>>,
    strong: Vec<usize>,
}

impl<T> Graph<T> {
    /// The number of slots handed out so far.
    pub closed spec fn len(&self) -> int {
        self.slots@.len() as int
    }

    /// Whether slot `i` holds a live node.
    pub closed spec fn live(&self, i: int) -> bool {
        0 <= i < self.slots@.len() && self.slots@[i] is Some
    }

    /// The payload of the node in slot `i`.
    pub closed spec fn value_at(&self, i: int) -> T {
        self.slots@[i]->Some_0.value
    }

    /// The slots of the children of the node in slot `i`, in order.
    pub closed spec fn kids(&self, i: int) -> Seq<int> {
        self.slots@[i]->Some_0.kids()
    }

    /// The strong count of slot `i`.
    pub closed spec fn count(&self, i: int) -> nat {
        self.strong@[i] as nat
    }

    /// How many handles to slot `j` the live nodes of the graph hold.
    pub closed spec fn indeg(&self, j: int) -> nat {
        indeg_upto(self.slots@, self.slots@.len() as int, j)
    }

    /// How many handles to slot `j` are held outside the graph's live nodes.
    pub open spec fn ext(&self, j: int) -> int {
        self.count(j) - self.indeg(j)
    }

    /// The graph's invariant: counts exist for every slot, every live node
    /// is counted at least once and at least as often as live nodes hold it,
    /// free slots have count zero, and each child of a live node is a live
    /// node in a lower slot.
    pub closed spec fn wf(&self) -> bool {
        &&& self.strong@.len() == self.slots@.len()
        &&& forall|i: int| 0 <= i < self.len() ==> (#[trigger] self.live(i) <==> self.count(i) > 0)
        &&& forall|i: int| #[trigger] self.live(i) ==> self.ext(i) >= 0
        &&& forall|i: int, k: int|
            #[trigger] self.live(i) && 0 <= k < self.kids(i).len() ==> {
                let c = #[trigger] self.kids(i)[k];
                0 <= c < i && self.live(c)
            }
    }

    /// A graph with no nodes.
    pub fn new() -> (r: Graph<T>)
        ensures
            r.wf(),
            r.len() == 0,
    {
        Graph { slots: Vec::new(), strong: Vec::new() }
    }

    /// Whether `o` has the same slots, holding the same nodes, as `self`;
    /// counts may differ.
    pub closed spec fn same_nodes(&self, o: &Graph<T>) -> bool {
        self.slots@ == o.slots@
    }

    /// Graphs with the same nodes agree on liveness, payloads, children and
    /// how often live nodes hold each slot.
    pub proof fn lemma_same_nodes(&self, o: &Graph<T>)
        requires
            self.same_nodes(o),
        ensures
            self.len() == o.len(),
            forall|i: int| #[trigger] self.live(i) == o.live(i),
            forall|i: int| #[trigger] self.value_at(i) == o.value_at(i),
            forall|i: int| #[trigger] self.kids(i) == o.kids(i),
            forall|i: int| #[trigger] self.indeg(i) == o.indeg(i),
    {
    }

    /// A live node that holds a handle to `j` makes `j` held inside the graph.
    proof fn lemma_held_by_live(&self, i: int, j: int)
        requires
            self.live(i),
            self.kids(i).contains(j),
        ensures
            self.indeg(j) >= 1,
    {
        lemma_occ_contains(self.kids(i), j);
        lemma_indeg_lower(self.slots@, i, self.slots@.len() as int, j);
    }

    /// Whether the slots `r` stand for handles held outside the graph: each is
    /// live, and no slot occurs in `r` more often than handles to it are held
    /// outside the graph's live nodes.
    pub open spec fn holds_outside(&self, r: Seq<int>) -> bool {
        forall|k: int| 0 <= k < r.len() ==> self.live(#[trigger] r[k]) && occ(r, r[k]) <= self.ext(r[k])
    }

    /// What `holds_outside` gives for every live slot.
    proof fn lemma_holds_outside(&self, r: Seq<int>)
        requires
            self.wf(),
            self.holds_outside(r),
        ensures
            forall|j: int| #[trigger] self.live(j) ==> occ(r, j) <= self.ext(j),
    {
        assert forall|j: int| #[trigger] self.live(j) implies occ(r, j) <= self.ext(j) by {
            lemma_occ_contains(r, j);
            if r.contains(j) {
                let k = choose|k: int| 0 <= k < r.len() && r[k] == j;
            }
        }
    }

    /// Moves `node` into a new slot with strong count one and returns the
    /// handle to it. The node's handles now count as held by the graph, so
    /// each of them must be one that was held outside it.
    pub fn share(&mut self, node: Node<T>) -> (r: NodeRef)
        requires
            old(self).wf(),
            old(self).holds_outside(node.kids()),
        ensures
            final(self).wf(),
            r@ == old(self).len(),
            final(self).len() == old(self).len() + 1,
            final(self).live(r@),
            final(self).value_at(r@) == node.value,
            final(self).kids(r@) == node.kids(),
            final(self).count(r@) == 1,
            final(self).ext(r@) == 1,
            forall|i: int|
                0 <= i < old(self).len() ==> {
                    &&& #[trigger] final(self).live(i) == old(self).live(i)
                    &&& final(self).value_at(i) == old(self).value_at(i)
                    &&& final(self).kids(i) == old(self).kids(i)
                    &&& final(self).count(i) == old(self).count(i)
                    &&& final(self).ext(i) == old(self).ext(i) - occ(node.kids(), i)
                },
    {
        let ghost s0 = self.slots@;
        let ghost n = s0.len() as int;
        let ghost nk = node.kids();
        proof {
            self.lemma_holds_outside(nk);
        }
        let id = self.slots.len();
        self.slots.push(Some(node));
        self.strong.push(1);
        proof {
            let s1 = self.slots@;
            assert(s1 =~= s0.push(s1[n]));
            assert forall|j: int| 0 <= j <= n implies #[trigger] self.indeg(j)
                == indeg_upto(s0, n, j) + occ(nk, j) by {
                lemma_indeg_push(s0, s1[n], n, j);
            }
            assert forall|i: int| 0 <= i < n implies holds(#[trigger] s0[i], n) == 0 by {
                if s0[i] is Some {
                    lemma_occ_contains(s0[i]->Some_0.kids(), n);
                    assert(old(self).live(i));
                    if s0[i]->Some_0.kids().contains(n) {
                        let k = choose|k: int|
                            0 <= k < s0[i]->Some_0.kids().len() && s0[i]->Some_0.kids()[k] == n;
                        assert(old(self).kids(i)[k] == n);
                    }
                }
            }
            lemma_indeg_zero(s0, n, n);
            lemma_occ_contains(nk, n);
            if nk.contains(n) {
                let k = choose|k: int| 0 <= k < nk.len() && nk[k] == n;
                assert(old(self).live(nk[k]));
            }
            assert forall|i: int, k: int|
                #[trigger] self.live(i) && 0 <= k < self.kids(i).len() implies {
                    let c = #[trigger] self.kids(i)[k];
                    0 <= c < i && self.live(c)
                } by {
                if i < n {
                    assert(old(self).live(i));
                    assert(old(self).kids(i)[k] == self.kids(i)[k]);
                } else {
                    assert(old(self).live(nk[k]));
                }
            }
            assert forall|i: int| #[trigger] self.live(i) implies self.ext(i) >= 0 by {
                if i < n {
                    assert(old(self).live(i));
                }
            }
            assert forall|i: int| 0 <= i < self.len() implies (#[trigger] self.live(i)
                <==> self.count(i) > 0) by {
                if i < n {
                    assert(old(self).live(i) <==> old(self).count(i) > 0);
                }
            }
        }
        NodeRef { id }
    }

    /// `g1` is `g0` with one more handle to slot `h`: the nodes are the same
    /// and only the count of `h` changed, by one.
    pub open spec fn cloned(g0: &Graph<T>, g1: &Graph<T>, h: int) -> bool {
        &&& g1.wf()
        &&& g1.same_nodes(g0)
        &&& g1.count(h) == g0.count(h) + 1
        &&& forall|i: int| 0 <= i < g0.len() && i != h ==> #[trigger] g1.count(i) == g0.count(i)
    }

    /// A second handle to the node of `h`, counted in its strong count.
    pub fn clone_ref(&mut self, h: &NodeRef) -> (r: NodeRef)
        requires
            old(self).wf(),
            old(self).live(h@),
            old(self).count(h@) < usize::MAX,
        ensures
            r@ == h@,
            Self::cloned(old(self), final(self), h@),
    {
        let i = h.id;
        let c = self.strong[i];
        self.strong.set(i, c + 1);
        proof {
            assert forall|j: int| #[trigger] self.live(j) implies self.ext(j) >= 0 by {
                assert(old(self).live(j));
            }
            assert forall|j: int| 0 <= j < self.len() implies (#[trigger] self.live(j)
                <==> self.count(j) > 0) by {
                assert(old(self).live(j) <==> old(self).count(j) > 0);
            }
            assert forall|j: int, k: int|
                #[trigger] self.live(j) && 0 <= k < self.kids(j).len() implies {
                    let c = #[trigger] self.kids(j)[k];
                    0 <= c < j && self.live(c)
                } by {
                assert(old(self).live(j));
                assert(old(self).kids(j)[k] == self.kids(j)[k]);
            }
        }
        NodeRef { id: i }
    }

    /// The strong count of the node of `h`: how many handles to it exist.
    pub fn strong_count(&self, h: &NodeRef) -> (r: usize)
        requires
            self.wf(),
            self.live(h@),
        ensures
            r == self.count(h@),
            r >= 1,
    {
        self.strong[h.id]
    }

    /// Whether slot `i` holds a live node: false for a slot never handed
    /// out and for one whose node was freed.
    pub fn is_live(&self, i: usize) -> (r: bool)
        requires
            self.wf(),
        ensures
            r == self.live(i as int),
    {
        i < self.slots.len() && self.slots[i].is_some()
    }

    /// The number of slots handed out so far, live or freed.
    pub fn slot_count(&self) -> (r: usize)
        ensures
            r == self.len(),
    {
        self.slots.len()
    }

    /// The node of `h`.
    pub fn node(&self, h: &NodeRef) -> (r: &Node<T>)
        requires
            self.live(h@),
        ensures
            r.value == self.value_at(h@),
            r.kids() == self.kids(h@),
    {
        self.slots[h.id].as_ref().unwrap()
    }

    /// The payload of the node of `h`.
    pub fn value(&self, h: &NodeRef) -> (r: &T)
        requires
            self.live(h@),
        ensures
            *r == self.value_at(h@),
    {
        &self.node(h).value
    }

    /// `g1` is `g0` after the handles to the slots `r` were given back: every
    /// node that survives keeps its payload and children and has its outside
    /// handles reduced by those in `r`; a node is freed only when no outside
    /// handle to it is left and every node that held it was freed too; and
    /// unless a node of `r` was freed, no node was.
    pub open spec fn released(g0: &Graph<T>, g1: &Graph<T>, r: Seq<int>) -> bool {
        &&& g1.wf()
        &&& g1.len() == g0.len()
        &&& forall|i: int| 0 <= i < g0.len() && #[trigger] g1.live(i) ==> {
            &&& g0.live(i)
            &&& g1.value_at(i) == g0.value_at(i)
            &&& g1.kids(i) == g0.kids(i)
            &&& g1.ext(i) == g0.ext(i) - occ(r, i)
        }
        &&& forall|i: int| #[trigger] g0.live(i) && !g1.live(i) ==> {
            &&& g0.ext(i) == occ(r, i)
            &&& forall|p: int| #[trigger] g0.live(p) && g0.kids(p).contains(i) ==> !g1.live(p)
        }
        &&& (forall|k: int| 0 <= k < r.len() ==> g1.live(#[trigger] r[k])) ==> g1.same_nodes(g0)
    }

    /// Gives back one handle to each slot of `r`, as often as it occurs,
    /// freeing the nodes whose count reaches zero and, in turn, the handles
    /// they hold. The work is done with an explicit stack, not by recursion.
    fn release_ids(&mut self, r: Vec<usize>)
        requires
            old(self).wf(),
            forall|k: int| 0 <= k < r@.len() ==> old(self).live(#[trigger] r@[k] as int),
            forall|j: int| #[trigger] old(self).live(j) ==> occ(r@.map_values(|x: usize| x as int), j) <= old(self).ext(j),
        ensures
            Self::released(old(self), final(self), r@.map_values(|x: usize| x as int)),
    {
        let ghost g0 = *self;
        let ghost n = self.slots@.len() as int;
        let ghost rs = r@.map_values(|x: usize| x as int);
        let mut stack = r;
        proof {
            assert(stack@.map_values(|x: usize| x as int) =~= rs);
            assert forall|k: int| 0 <= k < stack@.len() implies rs.contains(#[trigger] stack@[k] as int) by {
                assert(rs[k] == stack@[k] as int);
            }
        }
        while stack.len() > 0
            invariant
                self.slots@.len() == n,
                self.strong@.len() == n,
                g0.wf(),
                g0.len() == n,
                forall|i: int| #[trigger] self.live(i) ==> g0.live(i) && self.slots@[i] == g0.slots@[i],
                forall|i: int| 0 <= i < n ==> (#[trigger] self.live(i) <==> self.count(i) > 0),
                forall|i: int| #[trigger] g0.live(i) ==> occ(rs, i) <= g0.ext(i),
                forall|i: int|
                    #[trigger] self.live(i) ==> self.count(i) as int == self.indeg(i) + occ(
                        stack@.map_values(|x: usize| x as int),
                        i,
                    ) + g0.ext(i) - occ(rs, i),
                forall|i: int, k: int|
                    #[trigger] self.live(i) && 0 <= k < self.kids(i).len() ==> {
                        let c = #[trigger] self.kids(i)[k];
                        0 <= c < i && self.live(c)
                    },
                forall|k: int| 0 <= k < stack@.len() ==> self.live(#[trigger] stack@[k] as int),
                forall|i: int| #[trigger] g0.live(i) && !self.live(i) ==> {
                    &&& g0.ext(i) == occ(rs, i)
                    &&& forall|p: int| #[trigger] g0.live(p) && g0.kids(p).contains(i) ==> !self.live(p)
                },
                (forall|i: int| 0 <= i < n && g0.live(i) ==> #[trigger] self.live(i)) ==> forall|k: int|
                    0 <= k < stack@.len() ==> rs.contains(#[trigger] stack@[k] as int),
                (exists|i: int| 0 <= i < n && g0.live(i) && !#[trigger] self.live(i)) ==> exists|k: int|
                    0 <= k < rs.len() && !self.live(#[trigger] rs[k]),
            decreases total(self.strong@, n),
        {
            let ghost st0 = stack@.map_values(|x: usize| x as int);
            let ghost g1 = *self;
            let j = stack.pop().unwrap();
            let ghost st1 = stack@.map_values(|x: usize| x as int);
            proof {
                assert(st0 =~= st1.push(j as int));
                assert forall|i: int| occ(st0, i) == occ(st1, i) + (if i == j { 1nat } else { 0nat }) by {
                    lemma_occ_push(st1, j as int, i);
                }
                assert(st0[st0.len() - 1] == j);
                assert(g1.live(j as int));
                assert forall|k: int| 0 <= k < st1.len() implies st0[k] == #[trigger] st1[k] by {}
            }
            let c = self.strong[j];
            self.strong.set(j, c - 1);
            proof {
                lemma_total_update(g1.strong@, j as int, (c - 1) as usize, n);
            }
            if c == 1 {
                let ghost before_free = *self;
                proof {
                    assert(self.indeg(j as int) == 0);
                    assert forall|p: int| #[trigger] self.live(p) implies !self.kids(p).contains(j as int) by {
                        if self.kids(p).contains(j as int) {
                            self.lemma_held_by_live(p, j as int);
                        }
                    }
                    lemma_occ_contains(st1, j as int);
                }
                let nd = self.slots[j].as_ref().unwrap();
                let mut q: usize = 0;
                while q < nd.children.len()
                    invariant
                        q <= nd.children@.len(),
                        stack@.map_values(|x: usize| x as int) =~= st1 + nd.kids().take(q as int),
                    decreases nd.children@.len() - q,
                {
                    let ghost sq = stack@.map_values(|x: usize| x as int);
                    stack.push(nd.children[q].id);
                    proof {
                        assert(stack@.map_values(|x: usize| x as int) =~= sq.push(nd.kids()[q as int]));
                        assert(nd.kids().take(q + 1) =~= nd.kids().take(q as int).push(nd.kids()[q as int]));
                    }
                    q = q + 1;
                }
                proof {
                    assert(nd.kids().take(q as int) =~= nd.kids());
                }
                self.slots.set(j, None);
                proof {
                    let kj = before_free.kids(j as int);
                    let st2 = stack@.map_values(|x: usize| x as int);
                    assert forall|i: int| self.indeg(i) + holds(before_free.slots@[j as int], i)
                        == before_free.indeg(i) by {
                        lemma_indeg_update(before_free.slots@, j as int, None, n, i);
                    }
                    assert forall|i: int| occ(st2, i) == occ(st1, i) + occ(kj, i) by {
                        lemma_occ_append(st1, kj, i);
                    }
                    assert forall|i: int| #[trigger] self.live(i) implies self.count(i) as int
                        == self.indeg(i) + occ(st2, i) + g0.ext(i) - occ(rs, i) by {
                        assert(self.slots@[i] == before_free.slots@[i]);
                        assert(before_free.live(i));
                        assert(g1.live(i));
                        assert(i != j);
                        assert(self.count(i) == g1.count(i));
                        assert(before_free.slots@ == g1.slots@);
                        assert(holds(before_free.slots@[j as int], i) == occ(kj, i));
                        assert(before_free.indeg(i) == g1.indeg(i));
                        assert(self.indeg(i) + occ(kj, i) == before_free.indeg(i));
                        assert(occ(st2, i) == occ(st1, i) + occ(kj, i));
                        assert(occ(st0, i) == occ(st1, i));
                        assert(g1.count(i) as int == g1.indeg(i) + occ(st0, i) + g0.ext(i) - occ(rs, i));
                    }
                    assert forall|i: int, k: int|
                        #[trigger] self.live(i) && 0 <= k < self.kids(i).len() implies {
                            let c = #[trigger] self.kids(i)[k];
                            0 <= c < i && self.live(c)
                        } by {
                        assert(self.slots@[i] == before_free.slots@[i]);
                        assert(before_free.live(i));
                        assert(before_free.kids(i)[k] == self.kids(i)[k]);
                        assert(g1.live(i));
                        assert(g1.kids(i)[k] == self.kids(i)[k]);
                        let c = self.kids(i)[k];
                        if c == j {
                            assert(before_free.kids(i).contains(j as int));
                        }
                        assert(self.slots@[c] == before_free.slots@[c]);
                    }
                    assert forall|k: int| 0 <= k < stack@.len() implies self.live(
                        #[trigger] stack@[k] as int,
                    ) by {
                        assert(st2[k] == stack@[k] as int);
                        if k < st1.len() {
                            assert(st1[k] == st2[k]);
                            assert(g1.live(st1[k]));
                            if st1[k] == j {
                                assert(st1.contains(j as int));
                            }
                        } else {
                            assert(kj[k - st1.len()] == st2[k]);
                            assert(before_free.live(j as int));
                        }
                    }
                    assert forall|i: int| #[trigger] g0.live(i) && !self.live(i) implies {
                        &&& g0.ext(i) == occ(rs, i)
                        &&& forall|p: int| #[trigger] g0.live(p) && g0.kids(p).contains(i) ==> !self.live(p)
                    } by {
                        if i != j {
                            assert(!g1.live(i));
                        }
                        assert forall|p: int| #[trigger] g0.live(p) && g0.kids(p).contains(i) implies !self.live(p) by {
                            if self.live(p) {
                                assert(self.slots@[p] == before_free.slots@[p]);
                                assert(before_free.live(p));
                                assert(g1.live(p));
                                assert(g1.kids(p) == g0.kids(p));
                                assert(before_free.kids(p) == g0.kids(p));
                                if i != j {
                                    assert(!g1.live(i));
                                    assert(!g1.live(p));
                                }
                            }
                        }
                    }
                    if forall|k: int| 0 <= k < rs.len() ==> g1.live(#[trigger] rs[k]) {
                        assert(forall|i: int| 0 <= i < n && g0.live(i) ==> #[trigger] g1.live(i));
                        assert(rs.contains(st0[st0.len() - 1]));
                        let k = choose|k: int| 0 <= k < rs.len() && rs[k] == j;
                        assert(!self.live(rs[k]));
                    } else {
                        let k = choose|k: int| 0 <= k < rs.len() && !g1.live(#[trigger] rs[k]);
                        assert(!self.live(rs[k]));
                    }
                    assert(g0.live(j as int) && !self.live(j as int));
                    assert forall|i: int| 0 <= i < n implies (#[trigger] self.live(i) <==> self.count(i) > 0) by {
                        if i != j {
                            assert(self.slots@[i] == before_free.slots@[i]);
                            assert(g1.live(i) <==> g1.count(i) > 0);
                        }
                    }
                    assert forall|i: int| #[trigger] self.live(i) implies g0.live(i) && self.slots@[i]
                        == g0.slots@[i] by {
                        assert(self.slots@[i] == before_free.slots@[i]);
                        assert(g1.live(i));
                    }
                }
            } else {
                proof {
                    assert forall|i: int| #[trigger] self.live(i) implies g0.live(i) && self.slots@[i]
                        == g0.slots@[i] by {
                        assert(g1.live(i));
                    }
                    assert forall|i: int| 0 <= i < n implies (#[trigger] self.live(i) <==> self.count(i) > 0) by {
                        assert(g1.live(i) <==> g1.count(i) > 0);
                    }
                    assert forall|i: int| #[trigger] self.live(i) implies self.count(i) as int
                        == self.indeg(i) + occ(st1, i) + g0.ext(i) - occ(rs, i) by {
                        assert(g1.live(i));
                    }
                    assert forall|i: int, k: int|
                        #[trigger] self.live(i) && 0 <= k < self.kids(i).len() implies {
                            let c = #[trigger] self.kids(i)[k];
                            0 <= c < i && self.live(c)
                        } by {
                        assert(g1.live(i));
                        assert(g1.kids(i)[k] == self.kids(i)[k]);
                    }
                    assert forall|k: int| 0 <= k < stack@.len() implies self.live(
                        #[trigger] stack@[k] as int,
                    ) by {
                        assert(st0[k] == st1[k]);
                    }
                    assert forall|i: int| #[trigger] g0.live(i) && !self.live(i) implies {
                        &&& g0.ext(i) == occ(rs, i)
                        &&& forall|p: int| #[trigger] g0.live(p) && g0.kids(p).contains(i) ==> !self.live(p)
                    } by {
                        assert(!g1.live(i));
                        assert forall|p: int| #[trigger] g0.live(p) && g0.kids(p).contains(i) implies !self.live(p) by {
                            assert(!g1.live(p));
                        }
                    }
                    if forall|i: int| 0 <= i < n && g0.live(i) ==> #[trigger] self.live(i) {
                        assert forall|k: int| 0 <= k < stack@.len() implies rs.contains(
                            #[trigger] stack@[k] as int,
                        ) by {
                            assert(st0[k] == st1[k]);
                        }
                    }
                    if exists|i: int| 0 <= i < n && g0.live(i) && !#[trigger] self.live(i) {
                        let i = choose|i: int| 0 <= i < n && g0.live(i) && !#[trigger] self.live(i);
                        assert(!g1.live(i));
                        let k = choose|k: int| 0 <= k < rs.len() && !g1.live(#[trigger] rs[k]);
                        assert(!self.live(rs[k]));
                    }
                }
            }
        }
        proof {
            assert(stack@.map_values(|x: usize| x as int) =~= Seq::<int>::empty());
            assert forall|i: int| #[trigger] self.live(i) implies self.ext(i) >= 0 by {}
            if forall|k: int| 0 <= k < rs.len() ==> self.live(#[trigger] rs[k]) {
                assert forall|i: int| 0 <= i < n implies self.slots@[i] == #[trigger] g0.slots@[i] by {
                    if g0.live(i) && !self.live(i) {
                        assert(exists|i: int| 0 <= i < n && g0.live(i) && !#[trigger] self.live(i));
                        let k = choose|k: int| 0 <= k < rs.len() && !self.live(#[trigger] rs[k]);
                    }
                    if self.live(i) {
                        assert(g0.live(i));
                    }
                }
                assert(self.slots@ =~= g0.slots@);
            }
        }
    }

    /// Gives back the handles of `hs`: one unit of count per handle, freeing
    /// what drops to zero as [`Graph::release`] does.
    pub fn release_refs(&mut self, hs: Vec<NodeRef>)
        requires
            old(self).wf(),
            old(self).holds_outside(ids(hs@)),
        ensures
            Self::released(old(self), final(self), ids(hs@)),
    {
        proof {
            self.lemma_holds_outside(ids(hs@));
        }
        let mut r: Vec<usize> = Vec::new();
        let mut k: usize = 0;
        while k < hs.len()
            invariant
                k <= hs@.len(),
                r@.map_values(|x: usize| x as int) =~= ids(hs@).take(k as int),
            decreases hs@.len() - k,
        {
            let ghost r0 = r@.map_values(|x: usize| x as int);
            r.push(hs[k].id);
            proof {
                assert(r@.map_values(|x: usize| x as int) =~= r0.push(ids(hs@)[k as int]));
                assert(ids(hs@).take(k + 1) =~= ids(hs@).take(k as int).push(ids(hs@)[k as int]));
            }
            k = k + 1;
        }
        proof {
            assert(ids(hs@).take(k as int) =~= ids(hs@));
            assert forall|k: int| 0 <= k < r@.len() implies old(self).live(#[trigger] r@[k] as int) by {
                assert(r@.map_values(|x: usize| x as int)[k] == ids(hs@)[k]);
            }
        }
        self.release_ids(r);
    }

    /// Gives back the handle `h`: its node's count drops by one, and if it
    /// reaches zero the node is freed and the handles it holds are given back
    /// in turn, down the graph.
    pub fn release(&mut self, h: NodeRef)
        requires
            old(self).wf(),
            old(self).live(h@),
            old(self).ext(h@) >= 1,
        ensures
            Self::released(old(self), final(self), seq![h@]),
    {
        let ghost id = h@;
        let mut hs: Vec<NodeRef> = Vec::new();
        hs.push(h);
        proof {
            assert(ids(hs@) =~= seq![id]);
            assert(seq![id] =~= Seq::<int>::empty().push(id));
            lemma_occ_push(Seq::<int>::empty(), id, id);
        }
        self.release_refs(hs);
    }

    /// Drops a node that is held outside the graph, giving back the handles to
    /// its children as [`Graph::release_refs`] does.
    pub fn drop_node(&mut self, node: Node<T>)
        requires
            old(self).wf(),
            old(self).holds_outside(node.kids()),
        ensures
            Self::released(old(self), final(self), node.kids()),
    {
        self.release_refs(node.children);
    }

    /// A new handle for each handle of `hs`, in the same order: the handles
    /// that a copy of the list holds.
    pub fn clone_refs(&mut self, hs: &Vec<NodeRef>) -> (r: Vec<NodeRef>)
        requires
            old(self).wf(),
            forall|k: int|
                0 <= k < hs@.len() ==> old(self).live(#[trigger] ids(hs@)[k]) && old(self).count(ids(hs@)[k]) + occ(
                    ids(hs@),
                    ids(hs@)[k],
                ) <= usize::MAX,
        ensures
            final(self).wf(),
            ids(r@) == ids(hs@),
            final(self).same_nodes(old(self)),
            forall|j: int|
                0 <= j < old(self).len() ==> #[trigger] final(self).count(j) == old(self).count(j) + occ(ids(hs@), j),
    {
        let ghost g0 = *self;
        let ghost hv = ids(hs@);
        proof {
            assert forall|j: int| #[trigger] g0.live(j) implies g0.count(j) + occ(hv, j) <= usize::MAX by {
                lemma_occ_contains(hv, j);
                if hv.contains(j) {
                    let k = choose|k: int| 0 <= k < hv.len() && hv[k] == j;
                }
            }
        }
        let mut r: Vec<NodeRef> = Vec::new();
        let mut k: usize = 0;
        while k < hs.len()
            invariant
                k <= hs@.len(),
                hv == ids(hs@),
                self.wf(),
                self.same_nodes(&g0),
                g0.wf(),
                ids(r@) =~= hv.take(k as int),
                forall|k: int| 0 <= k < hv.len() ==> g0.live(#[trigger] hv[k]),
                forall|j: int| #[trigger] g0.live(j) ==> g0.count(j) + occ(hv, j) <= usize::MAX,
                forall|j: int|
                    0 <= j < g0.len() ==> #[trigger] self.count(j) == g0.count(j) + occ(hv.take(k as int), j),
            decreases hs@.len() - k,
        {
            proof {
                g0.lemma_same_nodes(self);
                assert(hv.take(k + 1) =~= hv.take(k as int).push(hv[k as int]));
                lemma_occ_push(hv.take(k as int), hv[k as int], hv[k as int]);
                assert(hv =~= hv.take(k + 1) + hv.skip(k + 1));
                lemma_occ_append(hv.take(k + 1), hv.skip(k + 1), hv[k as int]);
                assert(g0.live(hv[k as int]));
            }
            let c = self.clone_ref(&hs[k]);
            r.push(c);
            proof {
                g0.lemma_same_nodes(self);
                assert(ids(r@) =~= hv.take(k + 1));
                assert forall|j: int| 0 <= j < g0.len() implies #[trigger] self.count(j) == g0.count(j) + occ(hv.take(k + 1), j) by {
                    lemma_occ_push(hv.take(k as int), hv[k as int], j);
                }
            }
            k = k + 1;
        }
        proof {
            assert(hv.take(k as int) =~= hv);
        }
        r
    }

    /// Whether `t` is a descendant of the node in slot `i`: reachable from it
    /// by following one or more child handles.
    pub closed spec fn reaches(&self, i: int, t: int) -> bool
        decreases i,
    {
        if !self.live(i) {
            false
        } else {
            exists|k: int|
                0 <= k < self.kids(i).len() && 0 <= #[trigger] self.kids(i)[k] < i && (self.kids(i)[k] == t
                    || self.reaches(self.kids(i)[k], t))
        }
    }

    /// Whether `t` is one of the slots `kids` or a descendant of one of them.
    pub open spec fn descends(&self, kids: Seq<int>, t: int) -> bool {
        exists|k: int| 0 <= k < kids.len() && (#[trigger] kids[k] == t || self.reaches(kids[k], t))
    }

    /// In a well-formed graph, a node's descendants are exactly its children
    /// and their descendants.
    pub proof fn lemma_reaches_unfold(&self, i: int, t: int)
        requires
            self.wf(),
            self.live(i),
        ensures
            self.reaches(i, t) == self.descends(self.kids(i), t),
    {
        if self.descends(self.kids(i), t) {
            let k = choose|k: int|
                0 <= k < self.kids(i).len() && (#[trigger] self.kids(i)[k] == t || self.reaches(self.kids(i)[k], t));
            assert(self.live(i) && 0 <= k < self.kids(i).len());
        }
    }

    /// Descent depends only on which slots are live and on their children.
    pub proof fn lemma_reaches_same(&self, o: &Graph<T>, i: int, t: int)
        requires
            forall|j: int| #[trigger] self.live(j) == o.live(j),
            forall|j: int| #[trigger] self.live(j) ==> self.kids(j) == o.kids(j),
        ensures
            self.reaches(i, t) == o.reaches(i, t),
        decreases i,
    {
        if self.live(i) {
            assert forall|k: int| 0 <= k < self.kids(i).len() && 0 <= #[trigger] self.kids(i)[k] < i implies self.reaches(
                self.kids(i)[k],
                t,
            ) == o.reaches(self.kids(i)[k], t) by {
                self.lemma_reaches_same(o, self.kids(i)[k], t);
            }
            assert(self.kids(i) == o.kids(i));
        }
    }

    /// Whether `t` is the slot of one of `children` or a descendant of one:
    /// first among the children themselves, then depth-first below each in
    /// turn, stopping at the first match.
    fn any_has_descendant(&self, children: &Vec<NodeRef>, t: &NodeRef, Ghost(bound): Ghost<int>) -> (r: bool)
        requires
            self.wf(),
            forall|k: int|
                0 <= k < children@.len() ==> self.live(#[trigger] ids(children@)[k]) && ids(children@)[k] < bound,
        ensures
            r == self.descends(ids(children@), t@),
        decreases bound, 0int,
    {
        let ghost kids = ids(children@);
        let mut k: usize = 0;
        while k < children.len()
            invariant
                kids == ids(children@),
                k <= children@.len(),
                forall|q: int| 0 <= q < k ==> #[trigger] kids[q] != t@,
            decreases children@.len() - k,
        {
            if children[k].id == t.id {
                proof {
                    assert(kids[k as int] == t@);
                }
                return true;
            }
            k = k + 1;
        }
        let mut k: usize = 0;
        while k < children.len()
            invariant
                self.wf(),
                kids == ids(children@),
                forall|q: int| 0 <= q < kids.len() ==> self.live(#[trigger] kids[q]) && kids[q] < bound,
                k <= children@.len(),
                forall|q: int| 0 <= q < kids.len() ==> #[trigger] kids[q] != t@,
                forall|q: int| 0 <= q < k ==> !self.reaches(#[trigger] kids[q], t@),
            decreases children@.len() - k,
        {
            let c = children[k].id;
            proof {
                assert(kids[k as int] == c);
            }
            if self.slot_has_descendant(c, t) {
                return true;
            }
            k = k + 1;
        }
        false
    }

    /// Whether `t` is a descendant of the node in slot `i`.
    fn slot_has_descendant(&self, i: usize, t: &NodeRef) -> (r: bool)
        requires
            self.wf(),
            self.live(i as int),
        ensures
            r == self.reaches(i as int, t@),
        decreases i, 1int,
    {
        let nd = self.slots[i].as_ref().unwrap();
        proof {
            self.lemma_reaches_unfold(i as int, t@);
            assert forall|k: int| 0 <= k < nd.children@.len() implies self.live(#[trigger] ids(nd.children@)[k])
                && ids(nd.children@)[k] < i by {
                assert(self.live(i as int) && 0 <= k < self.kids(i as int).len());
                assert(self.kids(i as int)[k] == ids(nd.children@)[k]);
            }
        }
        self.any_has_descendant(&nd.children, t, Ghost(i as int))
    }

    /// Whether `t` is a descendant of the node of `h`.
    pub fn has_descendant(&self, h: &NodeRef, t: &NodeRef) -> (r: bool)
        requires
            self.wf(),
            self.live(h@),
        ensures
            r == self.reaches(h@, t@),
    {
        self.slot_has_descendant(h.id, t)
    }

    /// `g1` is `g0` with the payload of slot `h` replaced by `value`: only
    /// that payload differs; liveness, children, counts and descent are kept.
    pub open spec fn value_set(g0: &Graph<T>, g1: &Graph<T>, h: int, value: T) -> bool {
        &&& g1.wf()
        &&& g1.len() == g0.len()
        &&& g1.value_at(h) == value
        &&& forall|i: int| #[trigger] g1.live(i) == g0.live(i)
        &&& forall|i: int| 0 <= i < g0.len() ==> #[trigger] g1.kids(i) == g0.kids(i)
        &&& forall|i: int| #[trigger] g1.count(i) == g0.count(i)
        &&& forall|i: int| #[trigger] g1.indeg(i) == g0.indeg(i)
        &&& forall|i: int| 0 <= i < g0.len() && i != h ==> #[trigger] g1.value_at(i) == g0.value_at(i)
        &&& forall|i: int, t: int| #[trigger] g1.reaches(i, t) == g0.reaches(i, t)
    }

    /// Replaces the payload of the node of `h`; every handle to it sees the
    /// new payload.
    pub fn set_value(&mut self, h: &NodeRef, value: T)
        requires
            old(self).wf(),
            old(self).live(h@),
        ensures
            Self::value_set(old(self), final(self), h@, value),
    {
        let i = h.id;
        match &mut self.slots[i] {
            Some(nd) => {
                nd.value = value;
            },
            None => {},
        }
        proof {
            let s0 = old(self).slots@;
            assert(self.slots@ =~= s0.update(i as int, self.slots@[i as int]));
            assert forall|j: int| #[trigger] self.indeg(j) == old(self).indeg(j) by {
                lemma_indeg_update(s0, i as int, self.slots@[i as int], s0.len() as int, j);
            }
            assert forall|j: int, t: int| #[trigger] self.reaches(j, t) == old(self).reaches(j, t) by {
                self.lemma_reaches_same(old(self), j, t);
            }
            assert forall|j: int, k: int|
                #[trigger] self.live(j) && 0 <= k < self.kids(j).len() implies {
                    let c = #[trigger] self.kids(j)[k];
                    0 <= c < j && self.live(c)
                } by {
                assert(old(self).live(j));
                assert(old(self).kids(j)[k] == self.kids(j)[k]);
            }
            assert forall|j: int| #[trigger] self.live(j) implies self.ext(j) >= 0 by {
                assert(old(self).live(j));
            }
            assert forall|j: int| 0 <= j < self.len() implies (#[trigger] self.live(j) <==> self.count(j) > 0) by {
                assert(old(self).live(j) <==> old(self).count(j) > 0);
            }
        }
    }

}

/// A handle's strong count rises by one when the handle is cloned, and giving
/// the clone back brings it to what it was before.
pub proof fn lemma_clone_then_release<T>(g0: &Graph<T>, g1: &Graph<T>, g2: &Graph<T>, h: &NodeRef)
    requires
        g0.wf(),
        g0.live(h@),
        g0.ext(h@) >= 1,
        Graph::cloned(g0, g1, h@),
        Graph::released(g1, g2, seq![h@]),
    ensures
        g1.count(h@) == g0.count(h@) + 1,
        g2.live(h@),
        g2.count(h@) == g0.count(h@),
{
    g1.lemma_same_nodes(g0);
    assert(seq![h@] =~= Seq::<int>::empty().push(h@));
    lemma_occ_push(Seq::<int>::empty(), h@, h@);
    assert(g1.live(h@));
    assert(g2.live(seq![h@][0]));
    g2.lemma_same_nodes(g1);
}

/// Handles held by the surviving nodes of `g1` are among those held by the
/// live nodes of `g0`, less those of a node `f` that `g1` freed.
proof fn lemma_indeg_shrinks<T>(s0: Seq<Option<Node<T>>>, s1: Seq<Option<Node<T>>>, f: int, n: int, c: int)
    requires
        s0.len() == s1.len(),
        0 <= f < s0.len(),
        n <= s0.len(),
        s1[f] is None,
        forall|i: int| 0 <= i < s0.len() ==> #[trigger] holds(s1[i], c) == holds(s0[i], c) || s1[i] is None,
    ensures
        indeg_upto(s1, n, c) + (if f < n {
            holds(s0[f], c)
        } else {
            0
        }) <= indeg_upto(s0, n, c),
    decreases n,
{
    if n > 0 {
        lemma_indeg_shrinks(s0, s1, f, n - 1, c);
        assert(holds(s1[n - 1], c) == holds(s0[n - 1], c) || s1[n - 1] is None);
    }
}

/// Dropping a parent node gives back one unit of count for each handle it
/// held: when none of its children is freed, each live node's count drops by
/// exactly the number of handles the parent held to it; and each node freed
/// in turn gives back the handles it held, so every surviving node's count
/// drops by at least the handles that a freed node held to it, on top of
/// those the parent held.
pub proof fn lemma_drop_node_counts<T>(g0: &Graph<T>, g1: &Graph<T>, node: &Node<T>)
    requires
        g0.wf(),
        Graph::released(g0, g1, node.kids()),
    ensures
        (forall|k: int| 0 <= k < node.kids().len() ==> g1.live(#[trigger] node.kids()[k])) ==> forall|c: int|
            #[trigger] g0.live(c) ==> g1.live(c) && g1.count(c) == g0.count(c) - occ(node.kids(), c),
        forall|f: int, c: int|
            #[trigger] g0.live(f) && !g1.live(f) && #[trigger] g1.live(c) ==> g1.count(c) + occ(node.kids(), c)
                + occ(g0.kids(f), c) <= g0.count(c),
{
    if forall|k: int| 0 <= k < node.kids().len() ==> g1.live(#[trigger] node.kids()[k]) {
        g1.lemma_same_nodes(g0);
    }
    assert forall|f: int, c: int|
        #[trigger] g0.live(f) && !g1.live(f) && #[trigger] g1.live(c) implies g1.count(c) + occ(node.kids(), c)
            + occ(g0.kids(f), c) <= g0.count(c) by {
        assert forall|i: int| 0 <= i < g0.slots@.len() implies #[trigger] holds(g1.slots@[i], c) == holds(
            g0.slots@[i],
            c,
        ) || g1.slots@[i] is None by {
            if g1.live(i) {
                assert(g1.kids(i) == g0.kids(i));
            }
        }
        lemma_indeg_shrinks(g0.slots@, g1.slots@, f, g0.slots@.len() as int, c);
    }
}

/// A descendant always sits in a lower slot than its ancestor.
pub proof fn lemma_descendant_lower<T>(g: &Graph<T>, i: int, t: int)
    requires
        g.wf(),
        g.reaches(i, t),
    ensures
        0 <= t < i,
    decreases i,
{
    let k = choose|k: int|
        0 <= k < g.kids(i).len() && 0 <= #[trigger] g.kids(i)[k] < i && (g.kids(i)[k] == t || g.reaches(g.kids(i)[k], t));
    if g.kids(i)[k] != t {
        lemma_descendant_lower(g, g.kids(i)[k], t);
    }
}

/// No node is its own descendant.
pub proof fn lemma_not_own_descendant<T>(g: &Graph<T>, i: int)
    requires
        g.wf(),
    ensures
        !g.reaches(i, i),
{
    if g.reaches(i, i) {
        lemma_descendant_lower(g, i, i);
    }
}

/// Descent is transitive: a descendant of a descendant of `x` is a
/// descendant of `x`.
pub proof fn lemma_descendant_transitive<T>(g: &Graph<T>, x: int, y: int, z: int)
    requires
        g.wf(),
        g.reaches(x, y),
        g.reaches(y, z),
    ensures
        g.reaches(x, z),
    decreases x,
{
    let k = choose|k: int|
        0 <= k < g.kids(x).len() && 0 <= #[trigger] g.kids(x)[k] < x && (g.kids(x)[k] == y || g.reaches(g.kids(x)[k], y));
    let c = g.kids(x)[k];
    if c != y {
        lemma_descendant_transitive(g, c, y, z);
    }
}

/// A child of a child of `z` is a descendant of `z`.
pub proof fn lemma_grandchild_is_descendant<T>(g: &Graph<T>, x: int, y: int, z: int)
    requires
        g.wf(),
        g.live(z),
        g.kids(z).contains(y),
        g.kids(y).contains(x),
    ensures
        g.reaches(y, x),
        g.reaches(z, y),
        g.reaches(z, x),
{
    let k = choose|k: int| 0 <= k < g.kids(z).len() && g.kids(z)[k] == y;
    assert(g.live(z) && 0 <= k < g.kids(z).len());
    assert(g.reaches(z, y));
    let q = choose|q: int| 0 <= q < g.kids(y).len() && g.kids(y)[q] == x;
    assert(g.live(y) && 0 <= q < g.kids(y).len());
    assert(g.reaches(y, x));
    lemma_descendant_transitive(g, z, y, x);
}

/// A payload replaced through one handle is what every handle to the same
/// node reads afterwards, and the payloads of other nodes are unchanged.
pub proof fn lemma_update_seen_by_aliases<T>(g0: &Graph<T>, g1: &Graph<T>, h: &NodeRef, other: &NodeRef, value: T)
    requires
        g0.wf(),
        g0.live(h@),
        Graph::value_set(g0, g1, h@, value),
    ensures
        other@ == h@ ==> g1.value_at(other@) == value,
        other@ != h@ && g0.live(other@) ==> g1.value_at(other@) == g0.value_at(other@),
{
}

} // verus!
