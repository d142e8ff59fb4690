//! The frontier-expansion strategy: a queue of tentative costs,
//! expanded least-cost-first until no pending entry is left.

use vstd::prelude::*;
use vstd::set_lib::{lemma_int_range, lemma_len_subset, set_int_range};
use std::collections::HashMap;
use crate::graph::Graph;
use crate::walks::{
    admissible, cost, lemma_trivial_walk, lemma_walk_cost_nonneg, lemma_walk_extend,
    lemma_walk_prefix, minimal, reachable, walk_ok,
};

verus! {

broadcast use vstd::std_specs::hash::group_hash_axioms;

/// Every recorded distance is below the sentinel and is the cost of
/// some walk from `s`.
pub open spec fn sound(g: Graph, dist: Map<i32, i32>, s: i32) -> bool {
    forall|k: i32| #[trigger] dist.contains_key(k) ==> dist[k] != i32::MAX && (exists|
        w: Seq<(i32, i32)>,
    |
        walk_ok(g, w, s, k) && cost(w) == dist[k])
}

/// Every connection out of `p` is accounted for: either following it
/// from `p` would leave the representable range, or its target
/// already has a recorded distance at least as good.
pub open spec fn relaxed(g: Graph, dist: Map<i32, i32>, p: i32) -> bool {
    forall|b: i32, wt: i32| #[trigger] g.conn(p, b, wt) ==> {
        ||| dist[p] + wt >= i32::MAX
        ||| dist[p] + wt < i32::MIN
        ||| (dist.contains_key(b) && dist[b] <= dist[p] + wt)
    }
}

/// Slack left in the recorded distances listed by `keys`: how far
/// each still is above the least representable value. Recording a
/// strictly better distance strictly shrinks it, which is what bounds
/// the frontier loop.
pub open spec fn pot(keys: Seq<i32>, dist: Map<i32, i32>) -> nat
    decreases keys.len(),
{
    if keys.len() == 0 {
        0
    } else {
        pot(keys.drop_last(), dist) + (dist[keys.last()] - i32::MIN) as nat
    }
}

proof fn lemma_pot_le(keys: Seq<i32>, d0: Map<i32, i32>, d1: Map<i32, i32>)
    requires
        forall|i: int| 0 <= i < keys.len() ==> d1[#[trigger] keys[i]] <= d0[keys[i]],
    ensures
        pot(keys, d1) <= pot(keys, d0),
    decreases keys.len(),
{
    if keys.len() > 0 {
        assert(forall|i: int|
            0 <= i < keys.drop_last().len() ==> #[trigger] keys.drop_last()[i] == keys[i]);
        lemma_pot_le(keys.drop_last(), d0, d1);
        assert(keys.last() == keys[keys.len() - 1]);
    }
}

proof fn lemma_pot_lt(keys: Seq<i32>, d0: Map<i32, i32>, d1: Map<i32, i32>, k0: i32)
    requires
        forall|i: int| 0 <= i < keys.len() ==> d1[#[trigger] keys[i]] <= d0[keys[i]],
        keys.contains(k0),
        d1[k0] < d0[k0],
    ensures
        pot(keys, d1) < pot(keys, d0),
    decreases keys.len(),
{
    assert(keys.len() > 0);
    assert(forall|i: int|
        0 <= i < keys.drop_last().len() ==> #[trigger] keys.drop_last()[i] == keys[i]);
    assert(keys.last() == keys[keys.len() - 1]);
    if keys.last() == k0 {
        lemma_pot_le(keys.drop_last(), d0, d1);
    } else {
        let i = choose|i: int| 0 <= i < keys.len() && keys[i] == k0;
        assert(i < keys.len() - 1);
        assert(keys.drop_last()[i] == k0);
        assert(keys.drop_last().contains(k0));
        lemma_pot_lt(keys.drop_last(), d0, d1, k0);
    }
}

/// Distinct `i32` values fit in the `i32` range, so a duplicate-free
/// enumeration of them has bounded length.
proof fn lemma_distinct_keys_bounded(keys: Seq<i32>)
    requires
        keys.no_duplicates(),
    ensures
        keys.len() <= 0x1_0000_0000,
{
    let ints = keys.map_values(|k: i32| k as int);
    assert(ints.no_duplicates()) by {
        assert forall|i: int, j: int|
            0 <= i < ints.len() && 0 <= j < ints.len() && i != j implies ints[i] != ints[j] by {
            assert(keys[i] != keys[j]);
        }
    }
    ints.unique_seq_to_set();
    let range = set_int_range(i32::MIN as int, i32::MAX as int + 1);
    lemma_int_range(i32::MIN as int, i32::MAX as int + 1);
    assert(ints.to_set().subset_of(range)) by {
        assert forall|x: int| ints.to_set().contains(x) implies range.contains(x) by {
            let i = choose|i: int| 0 <= i < ints.len() && ints[i] == x;
            assert(ints[i] == keys[i] as int);
        }
    }
    lemma_len_subset(ints.to_set(), range);
}

/// When the start is recorded at 0, all recorded values are
/// nonnegative and every recorded point is relaxed, every walk of
/// representable cost is matched by a recorded distance at least as
/// good.
proof fn lemma_relaxed_walk(g: Graph, dist: Map<i32, i32>, s: i32, w: Seq<(i32, i32)>, d: i32)
    requires
        g.nonneg(),
        walk_ok(g, w, s, d),
        cost(w) < i32::MAX,
        dist.contains_key(s),
        dist[s] == 0,
        forall|k: i32| #[trigger] dist.contains_key(k) ==> dist[k] >= 0,
        forall|p: i32| #[trigger] dist.contains_key(p) ==> relaxed(g, dist, p),
    ensures
        dist.contains_key(d),
        dist[d] <= cost(w),
    decreases w.len(),
{
    lemma_walk_cost_nonneg(g, w, s, d);
    if w.len() == 1 {
        assert(cost(w) == cost(w.drop_last()) + w.last().1);
        assert(w.drop_last().len() == 0);
    } else {
        let k = w.len() - 1;
        let u = w[k - 1].0;
        let wt = w[k].1;
        lemma_walk_prefix(g, w, s, d, k);
        let p = w.subrange(0, k);
        assert(cost(w.subrange(k, w.len() as int)) == wt) by {
            let suf = w.subrange(k, w.len() as int);
            assert(suf.len() == 1);
            assert(cost(suf) == cost(suf.drop_last()) + suf.last().1);
            assert(suf.drop_last().len() == 0);
            assert(suf.last() == w[k]);
        }
        assert(w[k].1 >= 0);
        assert(cost(p) == cost(w) - wt);
        lemma_relaxed_walk(g, dist, s, p, u);
        assert(g.conn(u, w[k].0, wt));
        assert(relaxed(g, dist, u));
        assert(dist[u] + wt <= cost(w) < i32::MAX);
        assert(dist[u] + wt >= 0);
    }
}

/// Everything a frontier query promises of its result `r`: the
/// sentinel on an unregistered endpoint or an unreachable
/// destination; otherwise the cost of some walk and, under
/// nonnegative weights, a lower bound on every walk cost — the least
/// one; and 0 from a registered point to itself.
pub open spec fn frontier_post(g: Graph, s: i32, d: i32, r: i32) -> bool {
    &&& (!(g.points().contains(s) && g.points().contains(d)) ==> r == i32::MAX)
    &&& admissible(g, s, d, r)
    &&& (!reachable(g, s, d) ==> r == i32::MAX)
    &&& (g.nonneg() && g.points().contains(s) && g.points().contains(d) ==> minimal(g, s, d, r))
    &&& (g.nonneg() && g.points().contains(s) && s == d ==> r == 0)
}

/// Removes and returns an entry with the least cost.
fn pop_min(queue: &mut Vec<(i32, i32)>) -> (r: (i32, i32))
    requires
        old(queue)@.len() >= 1,
    ensures
        final(queue)@.len() == old(queue)@.len() - 1,
        exists|i: int|
            0 <= i < old(queue)@.len() && old(queue)@[i] == r && final(queue)@ == old(
                queue,
            )@.remove(i),
        forall|j: int| 0 <= j < old(queue)@.len() ==> r.0 <= (#[trigger] old(queue)@[j]).0,
{
    let mut best: usize = 0;
    let mut j: usize = 1;
    while j < queue.len()
        invariant
            queue@ == old(queue)@,
            1 <= j <= queue@.len(),
            best < j,
            forall|k: int| 0 <= k < j ==> queue@[best as int].0 <= (#[trigger] queue@[k]).0,
        decreases queue@.len() - j,
    {
        if queue[j].0 < queue[best].0 {
            best = j;
        }
        j += 1;
    }
    let ghost q0 = queue@;
    let r = queue.remove(best);
    proof {
        assert(q0[best as int] == r);
        assert(queue@ == q0.remove(best as int));
    }
    r
}

impl Graph {
    /// Shortest distance from `from_node_id` to `to_node_id` by
    /// least-cost frontier expansion, or `i32::MAX` when either
    /// identifier is unregistered or no walk connects them.
    ///
    /// Unless it is the sentinel, the result is the cost of some
    /// walk; for nonnegative weights and registered endpoints it is
    /// also a lower bound on every walk cost, hence the least one. A
    /// registered point reaches itself at distance 0. A candidate
    /// cost whose accumulation would leave the representable range is
    /// treated as infinite and never recorded.
    pub fn kkomatsu_dijkstra(&self, from_node_id: i32, to_node_id: i32) -> (r: i32)
        requires
            self.wf(),
        ensures
            frontier_post(*self, from_node_id, to_node_id, r),
    {
        if !self.nodes.contains_key(&from_node_id) || !self.nodes.contains_key(&to_node_id) {
            return i32::MAX;
        }
        let mut distances: HashMap<i32, i32> = HashMap::new();
        let mut queue: Vec<(i32, i32)> = Vec::new();
        distances.insert(from_node_id, 0);
        queue.push((0, from_node_id));
        let ghost mut keys: Seq<i32> = seq![from_node_id];
        proof {
            lemma_trivial_walk(*self, from_node_id);
            assert(queue@[0] == (0i32, from_node_id));
            assert(keys[0] == from_node_id);
            assert(keys.contains(from_node_id));
        }
        while queue.len() > 0
            invariant
                self.wf(),
                sound(*self, distances@, from_node_id),
                keys.no_duplicates(),
                forall|k: i32| #[trigger] distances@.contains_key(k) ==> keys.contains(k),
                forall|i: int|
                    0 <= i < keys.len() ==> distances@.contains_key(#[trigger] keys[i]),
                forall|i: int|
                    0 <= i < queue@.len() ==> distances@.contains_key((#[trigger] queue@[i]).1)
                        && distances@[queue@[i].1] <= queue@[i].0,
                self.nonneg() ==> distances@.contains_key(from_node_id)
                    && distances@[from_node_id] == 0,
                self.nonneg() ==> forall|k: i32|
                    #[trigger] distances@.contains_key(k) ==> distances@[k] >= 0,
                self.nonneg() ==> forall|p: i32|
                    #[trigger] distances@.contains_key(p) ==> (exists|i: int|
                        0 <= i < queue@.len() && queue@[i] == (distances@[p], p)) || relaxed(
                        *self,
                        distances@,
                        p,
                    ),
            decreases 0x1_0000_0001 - keys.len(), pot(keys, distances@), queue@.len(),
        {
            let ghost keys0 = keys;
            let ghost d0 = distances@;
            let ghost qlen0 = queue@.len();
            proof {
                lemma_distinct_keys_bounded(keys0);
            }
            let ghost q_before = queue@;
            let popped = pop_min(&mut queue);
            let c = popped.0;
            let p = popped.1;
            let ghost i_rm = choose|i: int|
                0 <= i < q_before.len() && q_before[i] == popped && queue@ == q_before.remove(i);
            proof {
                q_before.remove_ensures(i_rm);
                assert(distances@.contains_key(p) && distances@[p] <= c) by {
                    assert(q_before[i_rm].1 == p);
                }
                if self.nonneg() {
                    assert forall|q: i32| #[trigger] distances@.contains_key(q) && q != p implies (
                    exists|i: int|
                        0 <= i < queue@.len() && queue@[i] == (distances@[q], q)) || relaxed(
                        *self,
                        distances@,
                        q,
                    ) by {
                        if exists|i: int|
                            0 <= i < q_before.len() && q_before[i] == (distances@[q], q) {
                            let i = choose|i: int|
                                0 <= i < q_before.len() && q_before[i] == (distances@[q], q);
                            assert(i != i_rm);
                            if i < i_rm {
                                assert(queue@[i] == (distances@[q], q));
                            } else {
                                assert(queue@[i - 1] == (distances@[q], q));
                            }
                        }
                    }
                }
            }
            let stale = match distances.get(&p) {
                Some(cur) => c > *cur,
                None => false,
            };
            if !stale {
                proof {
                    assert(c == distances@[p]);
                    if self.nonneg() {
                        assert forall|q: i32| #[trigger] distances@.contains_key(q) && q != p
                            implies (exists|i: int|
                            0 <= i < queue@.len() && queue@[i] == (distances@[q], q)) || relaxed(
                            *self,
                            distances@,
                            q,
                        ) by {
                            if exists|i: int|
                                0 <= i < q_before.len() && q_before[i] == (distances@[q], q) {
                                let i = choose|i: int|
                                    0 <= i < q_before.len() && q_before[i] == (distances@[q], q);
                                assert(q_before[i] != popped);
                                if i < i_rm {
                                    assert(queue@[i] == (distances@[q], q));
                                } else {
                                    assert(queue@[i - 1] == (distances@[q], q));
                                }
                            }
                        }
                    }
                }
                let edge_list = self.edges.get(&p);
                match edge_list {
                    Some(edges) => {
                        let ghost walk_to_p = choose|w: Seq<(i32, i32)>|
                            walk_ok(*self, w, from_node_id, p) && cost(w) == c;
                        let mut j: usize = 0;
                        while j < edges.len()
                            invariant
                                self.wf(),
                                self.edges@.contains_key(p),
                                edges@ == self.adj(p),
                                j <= edges@.len(),
                                sound(*self, distances@, from_node_id),
                                walk_ok(*self, walk_to_p, from_node_id, p),
                                cost(walk_to_p) == c,
                                keys.no_duplicates(),
                                forall|k: i32|
                                    #[trigger] distances@.contains_key(k) ==> keys.contains(k),
                                forall|i: int|
                                    0 <= i < keys.len() ==> distances@.contains_key(
                                        #[trigger] keys[i],
                                    ),
                                keys0.len() <= keys.len(),
                                forall|i: int| 0 <= i < keys0.len() ==> keys[i] == keys0[i],
                                forall|i: int|
                                    0 <= i < keys0.len() ==> d0.contains_key(#[trigger] keys0[i]),
                                forall|k: i32|
                                    #[trigger] d0.contains_key(k) ==> distances@.contains_key(k)
                                        && distances@[k] <= d0[k],
                                keys.len() > keys0.len() || pot(keys0, distances@) < pot(
                                    keys0,
                                    d0,
                                ) || queue@.len() <= qlen0 - 1,
                                forall|i: int|
                                    0 <= i < queue@.len() ==> distances@.contains_key(
                                        (#[trigger] queue@[i]).1,
                                    ) && distances@[queue@[i].1] <= queue@[i].0,
                                self.nonneg() ==> distances@.contains_key(from_node_id)
                                    && distances@[from_node_id] == 0,
                                self.nonneg() ==> forall|k: i32|
                                    #[trigger] distances@.contains_key(k) ==> distances@[k] >= 0,
                                self.nonneg() ==> c >= 0 && distances@.contains_key(p)
                                    && distances@[p] == c,
                                self.nonneg() ==> forall|q: int|
                                    0 <= q < j ==> ((c + (#[trigger] edges@[q]).weight >= i32::MAX)
                                        || (distances@.contains_key(edges@[q].node_b_id)
                                        && distances@[edges@[q].node_b_id] <= c
                                        + edges@[q].weight)),
                                self.nonneg() ==> forall|q: i32|
                                    #[trigger] distances@.contains_key(q) ==> q == p || (exists|
                                        i: int,
                                    |
                                        0 <= i < queue@.len() && queue@[i] == (distances@[q], q))
                                        || relaxed(*self, distances@, q),
                            decreases edges@.len() - j,
                        {
                            let edge = &edges[j];
                            proof {
                                assert(self.adj(p)[j as int] == *edge);
                                assert(self.conn(p, edge.node_b_id, edge.weight));
                                if self.nonneg() {
                                    assert(edge.weight >= 0);
                                }
                            }
                            let next_cost_opt = c.checked_add(edge.weight);
                            match next_cost_opt {
                                Some(next_cost) => {
                                    let next_position = edge.node_b_id;
                                    let current = match distances.get(&next_position) {
                                        Some(cur) => *cur,
                                        None => i32::MAX,
                                    };
                                    if next_cost < current {
                                        let ghost d_mid = distances@;
                                        let ghost q_mid = queue@;
                                        let ghost keys_mid = keys;
                                        distances.insert(next_position, next_cost);
                                        queue.push((next_cost, next_position));
                                        proof {
                                            if !d_mid.contains_key(next_position) {
                                                keys = keys.push(next_position);
                                            }
                                            let w2 = walk_to_p.push((next_position, edge.weight));
                                            lemma_walk_extend(
                                                *self,
                                                walk_to_p,
                                                from_node_id,
                                                p,
                                                next_position,
                                                edge.weight,
                                            );
                                            assert(walk_ok(*self, w2, from_node_id, next_position)
                                                && cost(w2) == next_cost);
                                            assert forall|k: i32|
                                                #[trigger] distances@.contains_key(k)
                                                implies distances@[k] != i32::MAX && (exists|
                                                w: Seq<(i32, i32)>,
                                            |
                                                walk_ok(*self, w, from_node_id, k) && cost(w)
                                                    == distances@[k]) by {
                                                if k == next_position {
                                                    assert(walk_ok(*self, w2, from_node_id, k)
                                                        && cost(w2) == distances@[k]);
                                                } else {
                                                    assert(d_mid.contains_key(k));
                                                    assert(distances@[k] == d_mid[k]);
                                                }
                                            }
                                            // the enumeration still matches the recorded keys
                                            assert forall|k: i32|
                                                #[trigger] distances@.contains_key(k)
                                                implies keys.contains(k) by {
                                                if k == next_position {
                                                    assert(keys[keys.len() - 1] == k
                                                        || keys_mid.contains(k));
                                                } else {
                                                    let i = choose|i: int|
                                                        0 <= i < keys_mid.len() && keys_mid[i]
                                                            == k;
                                                    assert(keys[i] == k);
                                                }
                                            }
                                            assert forall|i: int|
                                                0 <= i < keys.len()
                                                implies distances@.contains_key(
                                                #[trigger] keys[i],
                                            ) by {
                                                if i < keys_mid.len() {
                                                    assert(keys[i] == keys_mid[i]);
                                                }
                                            }
                                            assert(keys.no_duplicates()) by {
                                                if !d_mid.contains_key(next_position) {
                                                    assert(!keys_mid.contains(next_position));
                                                }
                                            }
                                            // progress for the termination measure
                                            if d_mid.contains_key(next_position) {
                                                assert(keys == keys_mid);
                                                if keys.len() == keys0.len() {
                                                    assert(keys =~= keys0);
                                                    assert(keys_mid.contains(next_position));
                                                    assert(keys0.contains(next_position));
                                                    assert(d0.contains_key(next_position)) by {
                                                        let i0 = choose|i: int|
                                                            0 <= i < keys0.len() && keys0[i]
                                                                == next_position;
                                                        assert(d0.contains_key(keys0[i0]));
                                                    }
                                                    assert forall|i: int|
                                                        0 <= i < keys0.len()
                                                        implies distances@[#[trigger] keys0[i]]
                                                        <= d0[keys0[i]] by {
                                                        assert(d0.contains_key(keys0[i]));
                                                        assert(d_mid[keys0[i]] <= d0[keys0[i]]);
                                                        if keys0[i] != next_position {
                                                            assert(distances@[keys0[i]]
                                                                == d_mid[keys0[i]]);
                                                        } else {
                                                            assert(distances@[next_position]
                                                                == next_cost);
                                                            assert(current
                                                                == d_mid[next_position]);
                                                        }
                                                    }
                                                    assert(distances@[next_position]
                                                        < d0[next_position]) by {
                                                        assert(current == d_mid[next_position]);
                                                        assert(d_mid[next_position]
                                                            <= d0[next_position]);
                                                    }
                                                    lemma_pot_lt(
                                                        keys0,
                                                        d0,
                                                        distances@,
                                                        next_position,
                                                    );
                                                }
                                            }
                                            // the queue entry just pushed covers the
                                            // improved point
                                            assert(queue@[queue@.len() - 1] == (
                                                next_cost,
                                                next_position,
                                            ));
                                            if self.nonneg() {
                                                assert(distances@.contains_key(p)
                                                    && distances@[p] == c) by {
                                                    if p == next_position {
                                                        assert(next_cost >= c);
                                                    } else {
                                                        assert(d_mid.contains_key(p));
                                                    }
                                                }
                                                assert forall|q: i32|
                                                    #[trigger] distances@.contains_key(q)
                                                    implies q == p || (exists|i: int|
                                                    0 <= i < queue@.len() && queue@[i] == (
                                                        distances@[q],
                                                        q,
                                                    )) || relaxed(*self, distances@, q) by {
                                                    if q == next_position {
                                                        assert(queue@[queue@.len() - 1] == (
                                                            distances@[q],
                                                            q,
                                                        ));
                                                    } else if q != p {
                                                        assert(d_mid.contains_key(q));
                                                        assert(distances@[q] == d_mid[q]);
                                                        if exists|i: int|
                                                            0 <= i < q_mid.len() && q_mid[i] == (
                                                                d_mid[q],
                                                                q,
                                                            ) {
                                                            let i = choose|i: int|
                                                                0 <= i < q_mid.len() && q_mid[i]
                                                                    == (d_mid[q], q);
                                                            assert(queue@[i] == (
                                                                distances@[q],
                                                                q,
                                                            ));
                                                        } else if relaxed(*self, d_mid, q) {
                                                            assert forall|b: i32, wt: i32|
                                                                #[trigger] self.conn(q, b, wt)
                                                                implies {
                                                                ||| distances@[q] + wt >= i32::MAX
                                                                ||| distances@[q] + wt < i32::MIN
                                                                ||| (distances@.contains_key(b)
                                                                    && distances@[b]
                                                                    <= distances@[q] + wt)
                                                            } by {
                                                                if !(d_mid[q] + wt >= i32::MAX)
                                                                    && !(d_mid[q] + wt
                                                                    < i32::MIN) {
                                                                    if b == next_position {
                                                                        assert(distances@[b]
                                                                            <= d_mid[b]
                                                                            || !d_mid.contains_key(
                                                                            b,
                                                                        ));
                                                                        assert(next_cost
                                                                            < current);
                                                                    }
                                                                }
                                                            }
                                                        }
                                                    }
                                                }
                                            }
                                        }
                                    }
                                },
                                None => {
                                },
                            }
                            j += 1;
                        }
                        proof {
                            if self.nonneg() {
                                assert(relaxed(*self, distances@, p)) by {
                                    assert forall|b: i32, wt: i32| #[trigger] self.conn(p, b, wt)
                                        implies {
                                        ||| distances@[p] + wt >= i32::MAX
                                        ||| distances@[p] + wt < i32::MIN
                                        ||| (distances@.contains_key(b) && distances@[b]
                                            <= distances@[p] + wt)
                                    } by {
                                        let i = choose|i: int|
                                            0 <= i < self.adj(p).len() && (#[trigger] self.adj(
                                                p,
                                            )[i]).node_b_id == b && self.adj(p)[i].weight == wt
                                                && self.adj(p)[i].node_a_id == p;
                                        assert(edges@[i].node_b_id == b && edges@[i].weight
                                            == wt);
                                        assert((c + edges@[i].weight >= i32::MAX) || (
                                        distances@.contains_key(edges@[i].node_b_id)
                                            && distances@[edges@[i].node_b_id] <= c
                                            + edges@[i].weight));
                                    }
                                }
                            }
                        }
                    },
                    None => {
                        proof {
                            if self.nonneg() {
                                assert(relaxed(*self, distances@, p)) by {
                                    assert(self.adj(p).len() == 0);
                                    assert forall|b: i32, wt: i32| #[trigger] self.conn(p, b, wt)
                                        implies false by {
                                    }
                                }
                            }
                        }
                    },
                }
            }
            proof {
                lemma_distinct_keys_bounded(keys);
                if keys.len() == keys0.len() {
                    assert(keys =~= keys0);
                    assert forall|i: int|
                        0 <= i < keys0.len() implies distances@[#[trigger] keys0[i]]
                        <= d0[keys0[i]] by {
                        assert(d0.contains_key(keys0[i]));
                    }
                    lemma_pot_le(keys0, d0, distances@);
                }
            }
        }
        proof {
            if self.nonneg() && self.points().contains(from_node_id) && self.points().contains(
                to_node_id,
            ) {
                assert forall|w: Seq<(i32, i32)>| walk_ok(*self, w, from_node_id, to_node_id)
                    implies distances@.contains_key(to_node_id) || cost(w) >= i32::MAX by {
                    if cost(w) < i32::MAX {
                        lemma_relaxed_walk(*self, distances@, from_node_id, w, to_node_id);
                    }
                }
            }
        }
        let r = match distances.get(&to_node_id) {
            Some(cur) => *cur,
            None => i32::MAX,
        };
        proof {
            assert(admissible(*self, from_node_id, to_node_id, r)) by {
                if r != i32::MAX {
                    assert(distances@.contains_key(to_node_id) && distances@[to_node_id] == r);
                }
            }
            if r != i32::MAX {
                let w = choose|w: Seq<(i32, i32)>|
                    walk_ok(*self, w, from_node_id, to_node_id) && cost(w) == r;
                assert(reachable(*self, from_node_id, to_node_id));
            }
            if self.nonneg() && self.points().contains(from_node_id) && self.points().contains(
                to_node_id,
            ) {
                assert forall|w: Seq<(i32, i32)>|
                    walk_ok(*self, w, from_node_id, to_node_id) implies r as int <= cost(w) by {
                    if cost(w) < i32::MAX {
                        lemma_relaxed_walk(*self, distances@, from_node_id, w, to_node_id);
                        assert(r == distances@[to_node_id]);
                    }
                }
                if from_node_id == to_node_id {
                    lemma_trivial_walk(*self, from_node_id);
                    assert(r as int <= cost(seq![(from_node_id, 0i32)]));
                    lemma_walk_cost_nonneg(
                        *self,
                        choose|w: Seq<(i32, i32)>|
                            walk_ok(*self, w, from_node_id, to_node_id) && cost(w) == r,
                        from_node_id,
                        to_node_id,
                    );
                }
            }
        }
        r
    }
}

} // verus!
