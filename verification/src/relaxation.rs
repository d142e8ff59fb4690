//! The bounded-relaxation strategy: as many full relaxation passes
//! over every registered point as there are registered points.

use vstd::prelude::*;
use std::collections::HashMap;
use crate::graph::Graph;
use crate::walks::{
    admissible_registered, cost, interior_registered, lemma_short_walk, lemma_trivial_walk,
    lemma_walk_cost_nonneg, lemma_walk_extend, lemma_walk_prefix, minimal_registered, reachable,
    walk_ok,
};

verus! {

broadcast use vstd::std_specs::hash::group_hash_axioms;

/// Every recorded distance is below the sentinel and is the cost of
/// some walk from `s` whose interior points are registered.
pub open spec fn sound_registered(g: Graph, dist: Map<i32, i32>, s: i32) -> bool {
    forall|k: i32| #[trigger] dist.contains_key(k) ==> dist[k] != i32::MAX && (exists|
        w: Seq<(i32, i32)>,
    |
        walk_ok(g, w, s, k) && interior_registered(g, w) && cost(w) == dist[k])
}

/// After `m` passes, every registered-interior walk of at most `m`
/// steps and representable cost is matched by a recorded distance at
/// least as good.
pub open spec fn bf_bound(g: Graph, dist: Map<i32, i32>, s: i32, m: nat) -> bool {
    forall|w: Seq<(i32, i32)>, d: i32|
        #[trigger] walk_ok(g, w, s, d) && interior_registered(g, w) && w.len() <= m + 1 && cost(
            w,
        ) < i32::MAX ==> dist.contains_key(d) && dist[d] <= cost(w)
}

/// What one full pass achieves: every connection out of a registered,
/// previously recorded point whose candidate stays in range is
/// reflected in the new distances.
pub open spec fn pass_relaxed(g: Graph, d0: Map<i32, i32>, d1: Map<i32, i32>) -> bool {
    forall|u: i32, b: i32, wt: i32|
        g.points().contains(u) && #[trigger] g.conn(u, b, wt) && d0.contains_key(u) && 0 <= d0[u]
            + wt < i32::MAX ==> d1.contains_key(b) && d1[b] <= d0[u] + wt
}

/// A map that records the start at 0 bounds the walks of no steps.
proof fn lemma_bf_base(g: Graph, dist: Map<i32, i32>, s: i32)
    requires
        dist.contains_key(s),
        dist[s] == 0,
    ensures
        bf_bound(g, dist, s, 0),
{
    assert forall|w: Seq<(i32, i32)>, d: i32|
        #[trigger] walk_ok(g, w, s, d) && interior_registered(g, w) && w.len() <= 1 && cost(w)
            < i32::MAX implies dist.contains_key(d) && dist[d] <= cost(w) by {
        assert(w.len() == 1);
        assert(cost(w) == cost(w.drop_last()) + w.last().1);
        assert(w.drop_last().len() == 0);
        assert(w.last() == w[0]);
    }
}

/// One pass extends the bound by one step.
proof fn lemma_bf_step(g: Graph, d0: Map<i32, i32>, d1: Map<i32, i32>, s: i32, m: nat)
    requires
        g.nonneg(),
        bf_bound(g, d0, s, m),
        pass_relaxed(g, d0, d1),
        forall|k: i32| #[trigger] d0.contains_key(k) ==> d1.contains_key(k) && d1[k] <= d0[k],
        forall|k: i32| #[trigger] d0.contains_key(k) ==> d0[k] >= 0,
    ensures
        bf_bound(g, d1, s, m + 1),
{
    assert forall|w: Seq<(i32, i32)>, d: i32|
        #[trigger] walk_ok(g, w, s, d) && interior_registered(g, w) && w.len() <= m + 2 && cost(
            w,
        ) < i32::MAX implies d1.contains_key(d) && d1[d] <= cost(w) by {
        if w.len() <= m + 1 {
            assert(d0.contains_key(d) && d0[d] <= cost(w));
        } else {
            let k = w.len() - 1;
            let u = w[k - 1].0;
            let wt = w[k].1;
            lemma_walk_prefix(g, w, s, d, k);
            let p = w.subrange(0, k);
            assert(cost(w.subrange(k, w.len() as int)) == wt) by {
                let suf = w.subrange(k, w.len() as int);
                assert(suf.len() == 1);
                assert(cost(suf) == cost(suf.drop_last()) + suf.last().1);
                assert(suf.drop_last().len() == 0);
                assert(suf.last() == w[k]);
            }
            lemma_walk_cost_nonneg(g, w, s, d);
            lemma_walk_cost_nonneg(g, p, s, u);
            assert(cost(p) == cost(w) - wt);
            assert(p.len() <= m + 1 && cost(p) < i32::MAX);
            assert(d0.contains_key(u) && d0[u] <= cost(p));
            assert(g.points().contains(u));
            assert(g.conn(u, w[k].0, wt));
            assert(0 <= d0[u] + wt < i32::MAX);
            assert(d1.contains_key(d) && d1[d] <= d0[u] + wt);
        }
    }
}

/// Everything a relaxation query promises of its result `r`: the
/// sentinel on an unreachable destination; otherwise the cost of
/// some walk whose interior points are registered and, under
/// nonnegative weights, a lower bound on the cost of every such walk
/// — the least one; and 0 from any point, registered or not, to
/// itself.
pub open spec fn relaxation_post(g: Graph, s: i32, d: i32, r: i32) -> bool {
    &&& admissible_registered(g, s, d, r)
    &&& (!reachable(g, s, d) ==> r == i32::MAX)
    &&& (g.nonneg() ==> minimal_registered(g, s, d, r))
    &&& (g.nonneg() && s == d ==> r == 0)
}

impl Graph {
    /// Shortest distance from `from_node_id` to `to_node_id` by
    /// bounded relaxation: one full pass over every registered point,
    /// repeated as many times as there are registered points, or
    /// `i32::MAX` when no walk connects them.
    ///
    /// No identifier is validated: the start is recorded at distance
    /// 0 whether or not it is registered, so a query from a point to
    /// itself yields 0. Relaxation proceeds from registered points
    /// only, so only walks whose interior is registered are found;
    /// under nonnegative weights the result is the least cost of such
    /// a walk. A candidate whose accumulation would overflow is
    /// treated as infinite and never recorded.
    pub fn bellman_ford(&self, from_node_id: i32, to_node_id: i32) -> (r: i32)
        requires
            self.wf(),
        ensures
            relaxation_post(*self, from_node_id, to_node_id, r),
    {
        let mut distances: HashMap<i32, i32> = HashMap::new();
        distances.insert(from_node_id, 0);
        proof {
            lemma_trivial_walk(*self, from_node_id);
            lemma_bf_base(*self, distances@, from_node_id);
        }
        let n = self.ids.len();
        let mut pass: usize = 0;
        while pass < n
            invariant
                self.wf(),
                n == self.ids@.len(),
                pass <= n,
                sound_registered(*self, distances@, from_node_id),
                distances@.contains_key(from_node_id),
                self.nonneg() ==> distances@[from_node_id] == 0,
                self.nonneg() ==> forall|k: i32|
                    #[trigger] distances@.contains_key(k) ==> distances@[k] >= 0,
                self.nonneg() ==> bf_bound(*self, distances@, from_node_id, pass as nat),
            decreases n - pass,
        {
            let ghost dpass = distances@;
            let mut i: usize = 0;
            while i < self.ids.len()
                invariant
                    self.wf(),
                    i <= self.ids@.len(),
                    sound_registered(*self, distances@, from_node_id),
                    distances@.contains_key(from_node_id),
                    self.nonneg() ==> distances@[from_node_id] == 0,
                    self.nonneg() ==> forall|k: i32|
                        #[trigger] distances@.contains_key(k) ==> distances@[k] >= 0,
                    forall|k: i32|
                        #[trigger] dpass.contains_key(k) ==> distances@.contains_key(k)
                            && distances@[k] <= dpass[k],
                    self.nonneg() ==> forall|t: int, b: i32, wt: i32|
                        0 <= t < i && #[trigger] self.conn(self.ids@[t], b, wt)
                            && dpass.contains_key(self.ids@[t]) && 0 <= dpass[self.ids@[t]] + wt
                            < i32::MAX ==> distances@.contains_key(b) && distances@[b]
                            <= dpass[self.ids@[t]] + wt,
                decreases self.ids@.len() - i,
            {
                let node_id = self.ids[i];
                let edge_list = self.edges.get(&node_id);
                match edge_list {
                    Some(edges) => {
                        let mut j: usize = 0;
                        while j < edges.len()
                            invariant
                                self.wf(),
                                i < self.ids@.len(),
                                node_id == self.ids@[i as int],
                                self.edges@.contains_key(node_id),
                                edges@ == self.adj(node_id),
                                j <= edges@.len(),
                                sound_registered(*self, distances@, from_node_id),
                                distances@.contains_key(from_node_id),
                                self.nonneg() ==> distances@[from_node_id] == 0,
                                self.nonneg() ==> forall|k: i32|
                                    #[trigger] distances@.contains_key(k) ==> distances@[k] >= 0,
                                forall|k: i32|
                                    #[trigger] dpass.contains_key(k) ==> distances@.contains_key(
                                        k,
                                    ) && distances@[k] <= dpass[k],
                                self.nonneg() ==> forall|t: int, b: i32, wt: i32|
                                    0 <= t < i && #[trigger] self.conn(self.ids@[t], b, wt)
                                        && dpass.contains_key(self.ids@[t]) && 0
                                        <= dpass[self.ids@[t]] + wt < i32::MAX
                                        ==> distances@.contains_key(b) && distances@[b]
                                        <= dpass[self.ids@[t]] + wt,
                                self.nonneg() && dpass.contains_key(node_id) ==> forall|q: int|
                                    0 <= q < j && 0 <= dpass[node_id] + (
                                    #[trigger] edges@[q]).weight < i32::MAX
                                        ==> distances@.contains_key(edges@[q].node_b_id)
                                        && distances@[edges@[q].node_b_id] <= dpass[node_id]
                                        + edges@[q].weight,
                            decreases edges@.len() - j,
                        {
                            let edge = &edges[j];
                            proof {
                                assert(self.adj(node_id)[j as int] == *edge);
                                assert(self.conn(node_id, edge.node_b_id, edge.weight));
                                if self.nonneg() {
                                    assert(edge.weight >= 0);
                                }
                            }
                            let new_distance = match distances.get(&node_id) {
                                Some(dcur) => match (*dcur).checked_add(edge.weight) {
                                    Some(nd) => nd,
                                    None => i32::MAX,
                                },
                                None => i32::MAX,
                            };
                            let current = match distances.get(&edge.node_b_id) {
                                Some(cur) => *cur,
                                None => i32::MAX,
                            };
                            if new_distance < current {
                                let ghost d_mid = distances@;
                                distances.insert(edge.node_b_id, new_distance);
                                proof {
                                    let b = edge.node_b_id;
                                    assert(d_mid.contains_key(node_id));
                                    assert(new_distance == d_mid[node_id] + edge.weight);
                                    let wu = choose|w: Seq<(i32, i32)>|
                                        walk_ok(*self, w, from_node_id, node_id)
                                            && interior_registered(*self, w) && cost(w)
                                            == d_mid[node_id];
                                    lemma_walk_extend(
                                        *self,
                                        wu,
                                        from_node_id,
                                        node_id,
                                        b,
                                        edge.weight,
                                    );
                                    let w2 = wu.push((b, edge.weight));
                                    assert(self.points().contains(node_id)) by {
                                        assert(self.points().contains(self.ids@[i as int]));
                                    }
                                    assert(walk_ok(*self, w2, from_node_id, b)
                                        && interior_registered(*self, w2) && cost(w2)
                                        == new_distance);
                                    assert forall|k: i32| #[trigger] distances@.contains_key(k)
                                        implies distances@[k] != i32::MAX && (exists|
                                        w: Seq<(i32, i32)>,
                                    |
                                        walk_ok(*self, w, from_node_id, k)
                                            && interior_registered(*self, w) && cost(w)
                                            == distances@[k]) by {
                                        if k == b {
                                            assert(walk_ok(*self, w2, from_node_id, k)
                                                && interior_registered(*self, w2) && cost(w2)
                                                == distances@[k]);
                                        } else {
                                            assert(d_mid.contains_key(k));
                                            assert(distances@[k] == d_mid[k]);
                                        }
                                    }
                                    if self.nonneg() {
                                        assert(distances@[from_node_id] == 0) by {
                                            if b == from_node_id {
                                                assert(new_distance >= 0);
                                                assert(current == 0);
                                            }
                                        }
                                    }
                                }
                            }
                            j += 1;
                        }
                        proof {
                            if self.nonneg() && dpass.contains_key(node_id) {
                                assert forall|b: i32, wt: i32|
                                    #[trigger] self.conn(node_id, b, wt) && 0 <= dpass[node_id]
                                        + wt < i32::MAX implies distances@.contains_key(b)
                                    && distances@[b] <= dpass[node_id] + wt by {
                                    let q = choose|q: int|
                                        0 <= q < self.adj(node_id).len() && (#[trigger] self.adj(
                                            node_id,
                                        )[q]).node_b_id == b && self.adj(node_id)[q].weight == wt
                                            && self.adj(node_id)[q].node_a_id == node_id;
                                    assert(edges@[q].node_b_id == b && edges@[q].weight == wt);
                                }
                            }
                        }
                    },
                    None => {
                    },
                }
                proof {
                    if self.nonneg() {
                        assert forall|t: int, b: i32, wt: i32|
                            0 <= t < i + 1 && #[trigger] self.conn(self.ids@[t], b, wt)
                                && dpass.contains_key(self.ids@[t]) && 0 <= dpass[self.ids@[t]]
                                + wt < i32::MAX implies distances@.contains_key(b) && distances@[b]
                            <= dpass[self.ids@[t]] + wt by {
                            if t == i {
                                assert(self.ids@[t] == node_id);
                                if !self.edges@.contains_key(node_id) {
                                    assert(self.adj(node_id).len() == 0);
                                    assert(!self.conn(node_id, b, wt));
                                }
                            }
                        }
                    }
                }
                i += 1;
            }
            proof {
                if self.nonneg() {
                    assert(pass_relaxed(*self, dpass, distances@)) by {
                        assert forall|u: i32, b: i32, wt: i32|
                            self.points().contains(u) && #[trigger] self.conn(u, b, wt)
                                && dpass.contains_key(u) && 0 <= dpass[u] + wt < i32::MAX
                            implies distances@.contains_key(b) && distances@[b] <= dpass[u]
                            + wt by {
                            assert(self.ids@.contains(u));
                            let t = choose|t: int|
                                0 <= t < self.ids@.len() && self.ids@[t] == u;
                            assert(self.conn(self.ids@[t], b, wt));
                        }
                    }
                    lemma_bf_step(*self, dpass, distances@, from_node_id, pass as nat);
                }
            }
            pass += 1;
        }
        let r = match distances.get(&to_node_id) {
            Some(cur) => *cur,
            None => i32::MAX,
        };
        proof {
            assert(admissible_registered(*self, from_node_id, to_node_id, r)) by {
                if r != i32::MAX {
                    assert(distances@.contains_key(to_node_id) && distances@[to_node_id] == r);
                }
            }
            if r != i32::MAX {
                let w = choose|w: Seq<(i32, i32)>|
                    walk_ok(*self, w, from_node_id, to_node_id) && interior_registered(*self, w)
                        && cost(w) == r;
                assert(reachable(*self, from_node_id, to_node_id));
            }
            if self.nonneg() {
                assert(self.points().len() == self.ids@.len()) by {
                    self.ids@.unique_seq_to_set();
                    assert(self.ids@.to_set() =~= self.points()) by {
                        assert forall|k: i32| self.points().contains(k)
                            implies self.ids@.to_set().contains(k) by {
                            assert(self.ids@.contains(k));
                        }
                        assert forall|k: i32| self.ids@.to_set().contains(k)
                            implies self.points().contains(k) by {
                            let t = choose|t: int|
                                0 <= t < self.ids@.len() && self.ids@[t] == k;
                            assert(self.points().contains(self.ids@[t]));
                        }
                    }
                }
                assert forall|w: Seq<(i32, i32)>|
                    walk_ok(*self, w, from_node_id, to_node_id) && interior_registered(*self, w)
                    implies r as int <= cost(w) by {
                    if cost(w) < i32::MAX {
                        lemma_short_walk(*self, w, from_node_id, to_node_id);
                        let w2 = choose|w2: Seq<(i32, i32)>|
                            walk_ok(*self, w2, from_node_id, to_node_id) && interior_registered(
                                *self,
                                w2,
                            ) && w2.len() <= self.points().len() + 1 && cost(w2) <= cost(w);
                        assert(w2.len() <= n + 1 && cost(w2) < i32::MAX);
                        assert(distances@.contains_key(to_node_id) && distances@[to_node_id]
                            <= cost(w2));
                        assert(r == distances@[to_node_id]);
                    }
                }
                if from_node_id == to_node_id {
                    assert(r == distances@[from_node_id]);
                }
            }
        }
        r
    }
}

} // verus!
