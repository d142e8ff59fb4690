//! The graph representation: labeled points and weighted, undirected
//! connections, stored as directed adjacency lists.

use vstd::prelude::*;
use std::collections::HashMap;

verus! {

broadcast use vstd::std_specs::hash::group_hash_axioms;

/// A labeled location. The coordinates are payload for the caller and
/// are never read by the distance algorithms.
#[derive(Clone, Debug)]
pub struct Node {
    pub id: i32,
    pub x: i32,
    pub y: i32,
}

/// A weighted link between two points, stored directed from
/// `node_a_id` to `node_b_id`.
#[derive(Clone, Debug)]
pub struct Edge {
    pub node_a_id: i32,
    pub node_b_id: i32,
    pub weight: i32,
}

/// The synthesized reverse of a connection: the endpoints swapped,
/// the weight kept.
pub open spec fn reverse_edge(e: Edge) -> Edge {
    Edge { node_a_id: e.node_b_id, node_b_id: e.node_a_id, weight: e.weight }
}

/// Points keyed by identifier, plus one adjacency list per identifier.
/// Inserting a connection also inserts its reverse, so the stored
/// adjacency is always symmetric (see `Graph::wf`). A connection may
/// mention identifiers that were never registered as points.
///
/// `ids` lists the registered identifiers, each once, so that the
/// relaxation passes can enumerate them.
pub struct Graph {
    pub nodes: HashMap<i32, Node>,
    pub edges: HashMap<i32, Vec<Edge>>,
    pub ids: Vec<i32>,
}

impl Graph {
    /// The set of registered point identifiers.
    pub open spec fn points(self) -> Set<i32> {
        self.nodes@.dom()
    }

    /// The adjacency sequence stored under identifier `a`.
    pub open spec fn adj(self, a: i32) -> Seq<Edge> {
        if self.edges@.contains_key(a) {
            self.edges@[a]@
        } else {
            Seq::<Edge>::empty()
        }
    }

    /// A connection from `a` to `b` of weight `w` is stored.
    pub open spec fn conn(self, a: i32, b: i32, w: i32) -> bool {
        exists|i: int|
            0 <= i < self.adj(a).len() && (#[trigger] self.adj(a)[i]).node_b_id == b
                && self.adj(a)[i].weight == w && self.adj(a)[i].node_a_id == a
    }

    /// Well-formedness: `ids` enumerates exactly the registered
    /// identifiers, each once; every stored connection names its own
    /// source; and the adjacency is symmetric.
    pub open spec fn wf(self) -> bool {
        &&& self.ids@.no_duplicates()
        &&& forall|k: i32| self.points().contains(k) ==> self.ids@.contains(k)
        &&& forall|i: int|
            0 <= i < self.ids@.len() ==> self.points().contains(#[trigger] self.ids@[i])
        &&& forall|a: i32, i: int|
            0 <= i < self.adj(a).len() ==> (#[trigger] self.adj(a)[i]).node_a_id == a
        &&& forall|a: i32, b: i32, w: i32| #[trigger] self.conn(a, b, w) ==> self.conn(b, a, w)
    }

    /// Every stored connection has a nonnegative weight.
    pub open spec fn nonneg(self) -> bool {
        forall|a: i32, b: i32, w: i32| #[trigger] self.conn(a, b, w) ==> w >= 0
    }

    /// Every stored connection runs between registered points.
    pub open spec fn closed(self) -> bool {
        forall|a: i32, b: i32, w: i32|
            #[trigger] self.conn(a, b, w) ==> self.points().contains(a)
                && self.points().contains(b)
    }

    /// An empty graph: no points, no connections.
    pub fn new() -> (g: Graph)
        ensures
            g.wf(),
            g.nodes@ == Map::<i32, Node>::empty(),
            g.edges@ == Map::<i32, Vec<Edge>>::empty(),
            g.points() == Set::<i32>::empty(),
            forall|a: i32, b: i32, w: i32| !g.conn(a, b, w),
    {
        let g = Graph { nodes: HashMap::new(), edges: HashMap::new(), ids: Vec::new() };
        proof {
            assert(g.points() =~= Set::<i32>::empty());
            assert(forall|a: i32| g.adj(a).len() == 0);
        }
        g
    }

    /// Registers the point keyed by its identifier, silently
    /// overwriting the payload of a previously registered one.
    /// Connections are untouched.
    pub fn add_node(&mut self, node: Node)
        requires
            old(self).wf(),
        ensures
            final(self).wf(),
            final(self).nodes@ == old(self).nodes@.insert(node.id, node),
            final(self).edges == old(self).edges,
            final(self).points() == old(self).points().insert(node.id),
            forall|a: i32| final(self).adj(a) == old(self).adj(a),
            forall|a: i32, b: i32, w: i32|
                #[trigger] final(self).conn(a, b, w) <==> old(self).conn(a, b, w),
    {
        if !self.nodes.contains_key(&node.id) {
            self.ids.push(node.id);
        }
        let id = node.id;
        self.nodes.insert(id, node);
        proof {
            assert(self.points() =~= old(self).points().insert(id));
            assert forall|a: i32| self.adj(a) == old(self).adj(a) by {
                assert(self.edges == old(self).edges);
            }
            assert forall|k: i32| self.points().contains(k) implies self.ids@.contains(k) by {
                if k != id {
                    assert(old(self).points().contains(k));
                    let j = choose|j: int| 0 <= j < old(self).ids@.len() && old(self).ids@[j] == k;
                    assert(self.ids@[j] == k);
                }
                if k == id && old(self).points().contains(k) {
                    let j = choose|j: int| 0 <= j < old(self).ids@.len() && old(self).ids@[j] == k;
                    assert(self.ids@[j] == k);
                }
                if k == id && !old(self).points().contains(k) {
                    assert(self.ids@[self.ids@.len() - 1] == k);
                }
            }
            assert forall|a: i32, b: i32, w: i32| #[trigger] self.conn(a, b, w)
                implies self.conn(b, a, w) by {
                assert(old(self).conn(a, b, w));
            }
        }
    }

    /// Appends one directed entry to the adjacency list of its source.
    fn push_adj(&mut self, edge: Edge)
        ensures
            final(self).nodes == old(self).nodes,
            final(self).ids == old(self).ids,
            final(self).adj(edge.node_a_id) == old(self).adj(edge.node_a_id).push(edge),
            forall|a: i32| a != edge.node_a_id ==> final(self).adj(a) == old(self).adj(a),
            final(self).edges@.dom() == old(self).edges@.dom().insert(edge.node_a_id),
    {
        let key = edge.node_a_id;
        let mut list = match self.edges.remove(&key) {
            Some(l) => l,
            None => Vec::new(),
        };
        list.push(edge);
        self.edges.insert(key, list);
        proof {
            assert(self.adj(key) =~= old(self).adj(key).push(edge));
            assert(self.edges@.dom() =~= old(self).edges@.dom().insert(key));
            assert forall|a: i32| a != key implies self.adj(a) == old(self).adj(a) by {
                assert(self.edges@.contains_key(a) == old(self).edges@.contains_key(a));
                if old(self).edges@.contains_key(a) {
                    assert(self.edges@[a] == old(self).edges@[a]);
                }
            }
        }
    }

    /// Inserts a connection: the entry itself is appended to the
    /// adjacency list under its `node_a_id`, and the synthesized
    /// reverse entry to the list under its `node_b_id` (both to the
    /// same list, the entry first, when the endpoints are equal).
    /// Points and every other adjacency list stay as they were. The
    /// endpoints need not be registered points.
    pub fn add_edge(&mut self, edge: Edge)
        requires
            old(self).wf(),
        ensures
            final(self).wf(),
            final(self).nodes == old(self).nodes,
            final(self).points() == old(self).points(),
            edge.node_a_id != edge.node_b_id ==> final(self).adj(edge.node_a_id) == old(
                self,
            ).adj(edge.node_a_id).push(edge) && final(self).adj(edge.node_b_id) == old(self).adj(
                edge.node_b_id,
            ).push(reverse_edge(edge)),
            edge.node_a_id == edge.node_b_id ==> final(self).adj(edge.node_a_id) == old(
                self,
            ).adj(edge.node_a_id).push(edge).push(reverse_edge(edge)),
            forall|x: i32|
                x != edge.node_a_id && x != edge.node_b_id ==> final(self).adj(x) == old(
                    self,
                ).adj(x),
            final(self).edges@.dom() == old(self).edges@.dom().insert(edge.node_a_id).insert(
                edge.node_b_id,
            ),
            forall|a: i32, b: i32, w: i32|
                #[trigger] final(self).conn(a, b, w) <==> old(self).conn(a, b, w) || (a
                    == edge.node_a_id && b == edge.node_b_id && w == edge.weight) || (a
                    == edge.node_b_id && b == edge.node_a_id && w == edge.weight),
    {
        let rev = Edge {
            node_a_id: edge.node_b_id,
            node_b_id: edge.node_a_id,
            weight: edge.weight,
        };
        let ghost g0 = *self;
        self.push_adj(edge);
        let ghost g1 = *self;
        self.push_adj(rev);
        proof {
            let a0 = edge.node_a_id;
            let b0 = edge.node_b_id;
            let w0 = edge.weight;
            assert(rev == reverse_edge(edge));
            assert(self.points() =~= g0.points());
            assert(self.edges@.dom() =~= g0.edges@.dom().insert(a0).insert(b0));
            if a0 != b0 {
                assert(self.adj(a0) == g1.adj(a0));
                assert(g1.adj(b0) == g0.adj(b0));
                assert(self.adj(a0) == g0.adj(a0).push(edge));
                assert(self.adj(b0) == g0.adj(b0).push(reverse_edge(edge)));
            } else {
                assert(self.adj(a0) == g0.adj(a0).push(edge).push(reverse_edge(edge)));
            }
            assert forall|a: i32, b: i32, w: i32| #[trigger] self.conn(a, b, w)
                implies (g0.conn(a, b, w) || (a == a0 && b == b0 && w == w0) || (a == b0 && b
                    == a0 && w == w0)) by {
                let i = choose|i: int|
                    0 <= i < self.adj(a).len() && (#[trigger] self.adj(a)[i]).node_b_id == b
                        && self.adj(a)[i].weight == w && self.adj(a)[i].node_a_id == a;
                if a != a0 && a != b0 {
                    assert(self.adj(a) == g0.adj(a));
                    assert(g0.conn(a, b, w));
                } else {
                    if i < g0.adj(a).len() {
                        assert(g0.adj(a)[i] == self.adj(a)[i]);
                        assert(g0.conn(a, b, w));
                    }
                }
            }
            assert forall|a: i32, b: i32, w: i32|
                g0.conn(a, b, w) implies #[trigger] self.conn(a, b, w) by {
                let i = choose|i: int|
                    0 <= i < g0.adj(a).len() && (#[trigger] g0.adj(a)[i]).node_b_id == b
                        && g0.adj(a)[i].weight == w && g0.adj(a)[i].node_a_id == a;
                assert(self.adj(a)[i] == g0.adj(a)[i]);
            }
            assert(self.adj(a0)[g1.adj(a0).len() - 1] == edge || self.adj(a0) == g1.adj(a0));
            assert(g1.adj(a0)[g0.adj(a0).len() as int] == edge);
            assert(self.conn(a0, b0, w0)) by {
                if a0 == b0 {
                    assert(self.adj(a0)[g0.adj(a0).len() as int] == edge);
                } else {
                    assert(self.adj(a0) == g1.adj(a0));
                    assert(self.adj(a0)[g0.adj(a0).len() as int] == edge);
                }
            }
            assert(self.conn(b0, a0, w0)) by {
                assert(self.adj(b0)[self.adj(b0).len() - 1] == rev);
            }
            assert forall|a: i32, i: int|
                0 <= i < self.adj(a).len() implies (#[trigger] self.adj(a)[i]).node_a_id
                == a by {
                if a != a0 && a != b0 {
                    assert(self.adj(a) == g0.adj(a));
                } else if i < g0.adj(a).len() {
                    assert(self.adj(a)[i] == g0.adj(a)[i]);
                }
            }
            assert forall|a: i32, b: i32, w: i32| #[trigger] self.conn(a, b, w)
                implies self.conn(b, a, w) by {
                if g0.conn(a, b, w) {
                    assert(g0.conn(b, a, w));
                }
            }
        }
    }
}

} // verus!
