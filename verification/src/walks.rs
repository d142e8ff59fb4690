//! The mathematical model the distance contracts are stated over:
//! walks through the stored adjacency, their costs, and reachability.

use vstd::prelude::*;
use vstd::set_lib::lemma_len_subset;
use crate::graph::Graph;

verus! {

/// Total weight of a walk: the sum of its weight entries.
pub open spec fn cost(w: Seq<(i32, i32)>) -> int
    decreases w.len(),
{
    if w.len() == 0 {
        0
    } else {
        cost(w.drop_last()) + w.last().1
    }
}

/// `w` is a walk from `s` to `d`: entry `i` holds the point reached
/// after `i` steps together with the weight of the connection that
/// reached it (zero for the start).
pub open spec fn walk_ok(g: Graph, w: Seq<(i32, i32)>, s: i32, d: i32) -> bool {
    &&& w.len() >= 1
    &&& w[0].0 == s
    &&& w[0].1 == 0
    &&& w[w.len() - 1].0 == d
    &&& forall|i: int| 0 < i < w.len() ==> g.conn(w[i - 1].0, (#[trigger] w[i]).0, w[i].1)
}

/// Some walk leads from `s` to `d`. Every point reaches itself by the
/// walk that takes no steps.
pub open spec fn reachable(g: Graph, s: i32, d: i32) -> bool {
    exists|w: Seq<(i32, i32)>| walk_ok(g, w, s, d)
}

/// Every point of the walk except possibly the last is registered.
pub open spec fn interior_registered(g: Graph, w: Seq<(i32, i32)>) -> bool {
    forall|i: int| 0 <= i < w.len() - 1 ==> g.points().contains((#[trigger] w[i]).0)
}

/// Unless it is the sentinel, `r` is the cost of some walk from `s`
/// to `d`.
pub open spec fn admissible(g: Graph, s: i32, d: i32, r: i32) -> bool {
    r != i32::MAX ==> exists|w: Seq<(i32, i32)>|
        walk_ok(g, w, s, d) && cost(w) == r
}

/// Unless it is the sentinel, `r` is the cost of some walk from `s`
/// to `d` whose interior points are all registered.
pub open spec fn admissible_registered(g: Graph, s: i32, d: i32, r: i32) -> bool {
    r != i32::MAX ==> exists|w: Seq<(i32, i32)>|
        walk_ok(g, w, s, d) && interior_registered(g, w) && cost(w) == r
}

/// `r` is a lower bound on the cost of every walk from `s` to `d`.
pub open spec fn minimal(g: Graph, s: i32, d: i32, r: i32) -> bool {
    forall|w: Seq<(i32, i32)>| walk_ok(g, w, s, d) ==> r as int <= cost(w)
}

/// `r` is a lower bound on the cost of every walk from `s` to `d`
/// whose interior points are all registered.
pub open spec fn minimal_registered(g: Graph, s: i32, d: i32, r: i32) -> bool {
    forall|w: Seq<(i32, i32)>|
        walk_ok(g, w, s, d) && interior_registered(g, w) ==> r as int <= cost(w)
}

/// The walk that takes no steps connects a point to itself at cost 0.
pub proof fn lemma_trivial_walk(g: Graph, s: i32)
    ensures
        walk_ok(g, seq![(s, 0i32)], s, s),
        interior_registered(g, seq![(s, 0i32)]),
        cost(seq![(s, 0i32)]) == 0,
        reachable(g, s, s),
{
    let w = seq![(s, 0i32)];
    assert(w[0] == (s, 0i32));
    assert(cost(w) == cost(w.drop_last()) + 0);
    assert(w.drop_last().len() == 0);
    assert(walk_ok(g, w, s, s));
    assert(reachable(g, s, s));
}

/// A walk extends by one stored connection from its endpoint.
#[verifier::rlimit(50)]
pub proof fn lemma_walk_extend(g: Graph, w: Seq<(i32, i32)>, s: i32, u: i32, b: i32, wt: i32)
    requires
        walk_ok(g, w, s, u),
        g.conn(u, b, wt),
    ensures
        walk_ok(g, w.push((b, wt)), s, b),
        cost(w.push((b, wt))) == cost(w) + wt,
        interior_registered(g, w) && g.points().contains(u) ==> interior_registered(
            g,
            w.push((b, wt)),
        ),
{
    let w2 = w.push((b, wt));
    assert(w2.drop_last() =~= w);
    assert(w2[w2.len() - 1] == (b, wt));
    assert forall|i: int| 0 < i < w2.len() implies g.conn(
        w2[i - 1].0,
        (#[trigger] w2[i]).0,
        w2[i].1,
    ) by {
        if i < w.len() {
            assert(w2[i] == w[i]);
            assert(w2[i - 1] == w[i - 1]);
        } else {
            assert(w2[i - 1] == w[w.len() - 1]);
        }
    }
}

/// A sequence of nonnegative weight entries has nonnegative cost.
pub proof fn lemma_cost_nonneg_elems(w: Seq<(i32, i32)>)
    requires
        forall|i: int| 0 <= i < w.len() ==> (#[trigger] w[i]).1 >= 0,
    ensures
        cost(w) >= 0,
    decreases w.len(),
{
    if w.len() > 0 {
        assert(forall|i: int|
            0 <= i < w.drop_last().len() ==> (#[trigger] w.drop_last()[i]).1 >= 0);
        lemma_cost_nonneg_elems(w.drop_last());
    }
}

/// Under nonnegative weights every entry of a walk is nonnegative,
/// and so is its cost.
pub proof fn lemma_walk_cost_nonneg(g: Graph, w: Seq<(i32, i32)>, s: i32, d: i32)
    requires
        g.nonneg(),
        walk_ok(g, w, s, d),
    ensures
        forall|i: int| 0 <= i < w.len() ==> (#[trigger] w[i]).1 >= 0,
        cost(w) >= 0,
{
    assert forall|i: int| 0 <= i < w.len() implies (#[trigger] w[i]).1 >= 0 by {
        if i > 0 {
            assert(g.conn(w[i - 1].0, w[i].0, w[i].1));
        }
    }
    lemma_cost_nonneg_elems(w);
}

/// Cost distributes over concatenation.
pub proof fn lemma_cost_concat(a: Seq<(i32, i32)>, b: Seq<(i32, i32)>)
    ensures
        cost(a + b) == cost(a) + cost(b),
    decreases b.len(),
{
    if b.len() == 0 {
        assert(a + b =~= a);
    } else {
        assert((a + b).drop_last() =~= a + b.drop_last());
        assert((a + b).last() == b.last());
        lemma_cost_concat(a, b.drop_last());
    }
}

/// A walk restricted to its first `k` entries is a walk to its
/// `k`-th point, and the rest of the cost is the cost of the rest.
pub proof fn lemma_walk_prefix(g: Graph, w: Seq<(i32, i32)>, s: i32, d: i32, k: int)
    requires
        walk_ok(g, w, s, d),
        1 <= k <= w.len(),
    ensures
        walk_ok(g, w.subrange(0, k), s, w[k - 1].0),
        cost(w) == cost(w.subrange(0, k)) + cost(w.subrange(k, w.len() as int)),
        interior_registered(g, w) && k < w.len() ==> interior_registered(g, w.subrange(0, k)),
    decreases w.len(),
{
    let p = w.subrange(0, k);
    assert(p[0] == w[0]);
    assert(p[k - 1] == w[k - 1]);
    assert forall|i: int| 0 < i < p.len() implies g.conn(
        p[i - 1].0,
        (#[trigger] p[i]).0,
        p[i].1,
    ) by {
        assert(p[i] == w[i]);
        assert(p[i - 1] == w[i - 1]);
    }
    assert(w =~= w.subrange(0, k) + w.subrange(k, w.len() as int));
    lemma_cost_concat(w.subrange(0, k), w.subrange(k, w.len() as int));
}

/// In a graph whose connections run between registered points, every
/// walk out of a registered point stays on registered points.
pub proof fn lemma_walk_interior_closed(g: Graph, w: Seq<(i32, i32)>, s: i32, d: i32)
    requires
        g.closed(),
        g.points().contains(s),
        walk_ok(g, w, s, d),
    ensures
        interior_registered(g, w),
{
    assert forall|i: int| 0 <= i < w.len() - 1 implies g.points().contains(
        (#[trigger] w[i]).0,
    ) by {
        if i > 0 {
            assert(g.conn(w[i - 1].0, w[i].0, w[i].1));
        }
    }
}

/// The same walk traversed backwards: each point keeps the weight of
/// the connection that reaches it when walking from the far end.
pub open spec fn rev_walk(w: Seq<(i32, i32)>) -> Seq<(i32, i32)> {
    Seq::new(
        w.len(),
        |i: int|
            (
                w[w.len() - 1 - i].0,
                if i == 0 {
                    0i32
                } else {
                    w[w.len() - i].1
                },
            ),
    )
}

/// Sum of the weight entries from index `k` on.
spec fn wsum(w: Seq<(i32, i32)>, k: int) -> int
    decreases w.len() - k,
{
    if k >= w.len() {
        0
    } else {
        w[k].1 + wsum(w, k + 1)
    }
}

proof fn lemma_wsum_drop_last(w: Seq<(i32, i32)>, k: int)
    requires
        0 <= k <= w.len() - 1,
    ensures
        wsum(w, k) == wsum(w.drop_last(), k) + w.last().1,
    decreases w.len() - k,
{
    if k == w.len() - 1 {
        assert(wsum(w, k) == w[k].1 + wsum(w, k + 1));
        assert(wsum(w, k + 1) == 0);
        assert(wsum(w.drop_last(), k) == 0);
        assert(w.last() == w[k]);
    } else {
        lemma_wsum_drop_last(w, k + 1);
        assert(wsum(w, k) == w[k].1 + wsum(w, k + 1));
        assert(wsum(w.drop_last(), k) == w.drop_last()[k].1 + wsum(w.drop_last(), k + 1));
        assert(w.drop_last()[k] == w[k]);
    }
}

proof fn lemma_cost_wsum(w: Seq<(i32, i32)>)
    ensures
        cost(w) == wsum(w, 0),
    decreases w.len(),
{
    if w.len() > 0 {
        lemma_cost_wsum(w.drop_last());
        lemma_wsum_drop_last(w, 0);
    }
}

proof fn lemma_wsum_rev(w: Seq<(i32, i32)>, k: int)
    requires
        1 <= k <= w.len(),
    ensures
        wsum(rev_walk(w), k) == wsum(w, 1) - wsum(w, w.len() - k + 1),
    decreases w.len() - k,
{
    let rv = rev_walk(w);
    if k == w.len() {
        assert(wsum(rv, k) == 0);
    } else {
        lemma_wsum_rev(w, k + 1);
        assert(rv[k].1 == w[w.len() - k].1);
        assert(wsum(w, w.len() - k) == w[w.len() - k].1 + wsum(w, w.len() - k + 1));
    }
}

/// In a well-formed graph every connection can be walked both ways,
/// so every walk has a reverse walk of the same cost.
pub proof fn lemma_rev_walk(g: Graph, w: Seq<(i32, i32)>, s: i32, d: i32)
    requires
        g.wf(),
        walk_ok(g, w, s, d),
    ensures
        walk_ok(g, rev_walk(w), d, s),
        cost(rev_walk(w)) == cost(w),
{
    let rv = rev_walk(w);
    let n = w.len();
    assert(rv[0] == (d, 0i32));
    assert(rv[n - 1].0 == w[0].0);
    assert forall|i: int| 0 < i < n implies g.conn(
        rv[i - 1].0,
        (#[trigger] rv[i]).0,
        rv[i].1,
    ) by {
        assert(rv[i - 1].0 == w[n - i].0);
        assert(rv[i].0 == w[n - 1 - i].0);
        assert(rv[i].1 == w[n - i].1);
        assert(g.conn(w[n - i - 1].0, w[n - i].0, w[n - i].1));
    }
    lemma_cost_wsum(w);
    lemma_cost_wsum(rv);
    lemma_wsum_rev(w, 1);
    assert(wsum(rv, 0) == rv[0].1 + wsum(rv, 1));
    assert(wsum(w, 0) == w[0].1 + wsum(w, 1));
}

/// A sequence longer than a finite set it draws from repeats a value.
proof fn lemma_pigeonhole(s: Seq<i32>, pts: Set<i32>)
    requires
        pts.finite(),
        s.len() > pts.len(),
        forall|i: int| 0 <= i < s.len() ==> pts.contains(#[trigger] s[i]),
    ensures
        exists|i: int, j: int| 0 <= i < j < s.len() && s[i] == s[j],
{
    if !(exists|i: int, j: int| 0 <= i < j < s.len() && s[i] == s[j]) {
        assert(s.no_duplicates()) by {
            assert forall|i: int, j: int|
                0 <= i < s.len() && 0 <= j < s.len() && i != j implies s[i] != s[j] by {
                if s[i] == s[j] {
                    if i < j {
                        assert(0 <= i < j < s.len() && s[i] == s[j]);
                    } else {
                        assert(0 <= j < i < s.len() && s[j] == s[i]);
                    }
                }
            }
        }
        s.unique_seq_to_set();
        assert(s.to_set().subset_of(pts)) by {
            assert forall|x: i32| s.to_set().contains(x) implies pts.contains(x) by {
                let i = choose|i: int| 0 <= i < s.len() && s[i] == x;
                assert(pts.contains(s[i]));
            }
        }
        lemma_len_subset(s.to_set(), pts);
    }
}

/// Under nonnegative weights, any walk whose interior is registered
/// can be cut down, by removing cycles, to one of at most as much
/// cost that visits no more points than are registered.
pub proof fn lemma_short_walk(g: Graph, w: Seq<(i32, i32)>, s: i32, d: i32)
    requires
        g.nonneg(),
        walk_ok(g, w, s, d),
        interior_registered(g, w),
    ensures
        exists|w2: Seq<(i32, i32)>|
            walk_ok(g, w2, s, d) && interior_registered(g, w2) && w2.len() <= g.points().len()
                + 1 && cost(w2) <= cost(w),
    decreases w.len(),
{
    if w.len() <= g.points().len() + 1 {
        assert(walk_ok(g, w, s, d) && interior_registered(g, w) && w.len() <= g.points().len()
            + 1 && cost(w) <= cost(w));
    } else {
        let froms = w.subrange(0, w.len() - 1).map_values(|e: (i32, i32)| e.0);
        assert(forall|i: int| 0 <= i < froms.len() ==> #[trigger] froms[i] == w[i].0);
        vstd::std_specs::hash::axiom_hashmap_view_finite_dom(g.nodes);
        assert(g.points().finite());
        assert forall|i: int| 0 <= i < froms.len() implies g.points().contains(
            #[trigger] froms[i],
        ) by {
            assert(g.points().contains(w[i].0));
        }
        lemma_pigeonhole(froms, g.points());
        let (i, j) = choose|i: int, j: int| 0 <= i < j < froms.len() && froms[i] == froms[j];
        assert(w[i].0 == w[j].0);
        let a = w.subrange(0, i + 1);
        let b = w.subrange(j + 1, w.len() as int);
        let mid = w.subrange(i + 1, j + 1);
        let w2 = a + b;
        assert(w2.len() == w.len() - (j - i));
        assert(walk_ok(g, w2, s, d)) by {
            assert(w2[0] == w[0]);
            assert(w2[w2.len() - 1] == w[w.len() - 1]);
            assert forall|t: int| 0 < t < w2.len() implies g.conn(
                w2[t - 1].0,
                (#[trigger] w2[t]).0,
                w2[t].1,
            ) by {
                if t < a.len() {
                    assert(w2[t] == w[t]);
                    assert(w2[t - 1] == w[t - 1]);
                } else if t == a.len() {
                    assert(w2[t - 1] == w[i]);
                    assert(w2[t] == w[j + 1]);
                    assert(g.conn(w[j].0, w[j + 1].0, w[j + 1].1));
                } else {
                    assert(w2[t] == w[t + j - i]);
                    assert(w2[t - 1] == w[t - 1 + j - i]);
                    assert(g.conn(w[t + j - i - 1].0, w[t + j - i].0, w[t + j - i].1));
                }
            }
        }
        assert(interior_registered(g, w2)) by {
            assert forall|t: int| 0 <= t < w2.len() - 1 implies g.points().contains(
                (#[trigger] w2[t]).0,
            ) by {
                if t < a.len() {
                    assert(w2[t] == w[t]);
                    assert(g.points().contains(w[t].0));
                } else {
                    assert(w2[t] == w[t + j - i]);
                    assert(g.points().contains(w[t + j - i].0));
                }
            }
        }
        assert(cost(w2) <= cost(w)) by {
            lemma_cost_concat(a, b);
            assert(w =~= a + (mid + b));
            lemma_cost_concat(a, mid + b);
            lemma_cost_concat(mid, b);
            lemma_walk_cost_nonneg(g, w, s, d);
            assert forall|t: int| 0 <= t < mid.len() implies (#[trigger] mid[t]).1 >= 0 by {
                assert(mid[t] == w[t + i + 1]);
                assert(w[t + i + 1].1 >= 0);
            }
            lemma_cost_nonneg_elems(mid);
        }
        lemma_short_walk(g, w2, s, d);
        let w3 = choose|w3: Seq<(i32, i32)>|
            walk_ok(g, w3, s, d) && interior_registered(g, w3) && w3.len() <= g.points().len()
                + 1 && cost(w3) <= cost(w2);
        assert(walk_ok(g, w3, s, d) && interior_registered(g, w3) && w3.len() <= g.points().len()
            + 1 && cost(w3) <= cost(w));
    }
}

/// Two values that are both the cost of some walk and lower bounds on
/// every walk cost coincide. This is why a distance query, repeated
/// against an unmodified graph, returns the same result.
pub proof fn lemma_min_unique(g: Graph, s: i32, d: i32, r1: i32, r2: i32)
    requires
        admissible(g, s, d, r1),
        minimal(g, s, d, r1),
        admissible(g, s, d, r2),
        minimal(g, s, d, r2),
    ensures
        r1 == r2,
{
    if r1 != i32::MAX {
        let w1 = choose|w: Seq<(i32, i32)>| walk_ok(g, w, s, d) && cost(w) == r1;
        assert(r2 as int <= cost(w1));
    }
    if r2 != i32::MAX {
        let w2 = choose|w: Seq<(i32, i32)>| walk_ok(g, w, s, d) && cost(w) == r2;
        assert(r1 as int <= cost(w2));
    }
}

/// The registered-interior variant of `lemma_min_unique`.
pub proof fn lemma_min_unique_registered(g: Graph, s: i32, d: i32, r1: i32, r2: i32)
    requires
        admissible_registered(g, s, d, r1),
        minimal_registered(g, s, d, r1),
        admissible_registered(g, s, d, r2),
        minimal_registered(g, s, d, r2),
    ensures
        r1 == r2,
{
    if r1 != i32::MAX {
        let w1 = choose|w: Seq<(i32, i32)>|
            walk_ok(g, w, s, d) && interior_registered(g, w) && cost(w) == r1;
        assert(r2 as int <= cost(w1));
    }
    if r2 != i32::MAX {
        let w2 = choose|w: Seq<(i32, i32)>|
            walk_ok(g, w, s, d) && interior_registered(g, w) && cost(w) == r2;
        assert(r1 as int <= cost(w2));
    }
}

} // verus!
