//! Properties that relate distance queries to one another, proved
//! from the contracts the two strategies publish.
//!
//! Each law quantifies over results that satisfy a query's published
//! contract, so it covers every value the query can return.

use vstd::prelude::*;
use crate::frontier::frontier_post;
use crate::graph::Graph;
use crate::relaxation::relaxation_post;
use crate::walks::{
    admissible, cost, interior_registered, lemma_min_unique, lemma_min_unique_registered,
    lemma_rev_walk, lemma_walk_interior_closed, minimal, rev_walk, walk_ok,
};

verus! {

/// Repeated identical frontier queries against an unmodified graph
/// with nonnegative weights return identical results: the contract
/// pins the value down.
pub proof fn lemma_frontier_idempotent(g: Graph, s: i32, d: i32, r1: i32, r2: i32)
    requires
        g.nonneg(),
        frontier_post(g, s, d, r1),
        frontier_post(g, s, d, r2),
    ensures
        r1 == r2,
{
    if g.points().contains(s) && g.points().contains(d) {
        lemma_min_unique(g, s, d, r1, r2);
    }
}

/// Repeated identical relaxation queries against an unmodified graph
/// with nonnegative weights return identical results.
pub proof fn lemma_relaxation_idempotent(g: Graph, s: i32, d: i32, r1: i32, r2: i32)
    requires
        g.nonneg(),
        relaxation_post(g, s, d, r1),
        relaxation_post(g, s, d, r2),
    ensures
        r1 == r2,
{
    lemma_min_unique_registered(g, s, d, r1, r2);
}

/// On a graph with nonnegative weights whose connections all run
/// between registered points, the two strategies agree on every
/// query between registered points.
pub proof fn lemma_strategies_agree(g: Graph, s: i32, d: i32, rf: i32, rr: i32)
    requires
        g.nonneg(),
        g.closed(),
        g.points().contains(s),
        g.points().contains(d),
        frontier_post(g, s, d, rf),
        relaxation_post(g, s, d, rr),
    ensures
        rf == rr,
{
    assert(admissible(g, s, d, rr)) by {
        if rr != i32::MAX {
            let w = choose|w: Seq<(i32, i32)>|
                walk_ok(g, w, s, d) && interior_registered(g, w) && cost(w) == rr;
            assert(walk_ok(g, w, s, d) && cost(w) == rr);
        }
    }
    assert(minimal(g, s, d, rr)) by {
        assert forall|w: Seq<(i32, i32)>| walk_ok(g, w, s, d) implies rr as int <= cost(w) by {
            lemma_walk_interior_closed(g, w, s, d);
        }
    }
    lemma_min_unique(g, s, d, rf, rr);
}

/// Frontier distances are symmetric: every connection is stored in
/// both directions with the same weight, so walks reverse at equal
/// cost.
pub proof fn lemma_frontier_symmetric(g: Graph, s: i32, d: i32, r1: i32, r2: i32)
    requires
        g.wf(),
        g.nonneg(),
        frontier_post(g, s, d, r1),
        frontier_post(g, d, s, r2),
    ensures
        r1 == r2,
{
    if g.points().contains(s) && g.points().contains(d) {
        if r1 != i32::MAX {
            let w = choose|w: Seq<(i32, i32)>| walk_ok(g, w, s, d) && cost(w) == r1;
            lemma_rev_walk(g, w, s, d);
            assert(r2 as int <= cost(rev_walk(w)));
        }
        if r2 != i32::MAX {
            let w = choose|w: Seq<(i32, i32)>| walk_ok(g, w, d, s) && cost(w) == r2;
            lemma_rev_walk(g, w, d, s);
            assert(r1 as int <= cost(rev_walk(w)));
        }
    }
}

/// Relaxation distances are symmetric on graphs whose connections
/// all run between registered points. Without that restriction
/// symmetry can fail: relaxation never proceeds from an unregistered
/// point, so a connection out of one is found in one direction only.
pub proof fn lemma_relaxation_symmetric(g: Graph, s: i32, d: i32, r1: i32, r2: i32)
    requires
        g.wf(),
        g.nonneg(),
        g.closed(),
        relaxation_post(g, s, d, r1),
        relaxation_post(g, d, s, r2),
    ensures
        r1 == r2,
{
    if r1 != i32::MAX {
        let w = choose|w: Seq<(i32, i32)>|
            walk_ok(g, w, s, d) && interior_registered(g, w) && cost(w) == r1;
        lemma_rev_walk(g, w, s, d);
        let rv = rev_walk(w);
        assert(interior_registered(g, rv)) by {
            if w.len() >= 2 {
                assert(g.conn(w[w.len() - 2].0, w[w.len() - 1].0, w[w.len() - 1].1));
                assert(g.points().contains(d));
                lemma_walk_interior_closed(g, rv, d, s);
            } else {
                assert(rv.len() == 1);
            }
        }
        assert(r2 as int <= cost(rv));
    }
    if r2 != i32::MAX {
        let w = choose|w: Seq<(i32, i32)>|
            walk_ok(g, w, d, s) && interior_registered(g, w) && cost(w) == r2;
        lemma_rev_walk(g, w, d, s);
        let rv = rev_walk(w);
        assert(interior_registered(g, rv)) by {
            if w.len() >= 2 {
                assert(g.conn(w[w.len() - 2].0, w[w.len() - 1].0, w[w.len() - 1].1));
                assert(g.points().contains(s));
                lemma_walk_interior_closed(g, rv, s, d);
            } else {
                assert(rv.len() == 1);
            }
        }
        assert(r1 as int <= cost(rv));
    }
}

} // verus!
